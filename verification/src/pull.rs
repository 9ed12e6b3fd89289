//! How sinks choose the source they pull from: every source offers itself to
//! the sink of its area it reaches soonest, and every sink takes the soonest
//! offer it got.

use std::collections::HashMap;

use vstd::prelude::*;
use vstd::std_specs::iter::IteratorSpec;

use crate::area::{unexcluded, AreaGraph};
use crate::graph::{Link, Node, PathDir, Route};
use crate::hex::{coord_ok, Coord};
use crate::network::{answer_costs_ok, connected, copy_route, graph_fits, Graph};
use crate::resource::{cooldown_spec, pull, pulled, pullable, serves, Resource, Sink, Source};
use crate::{Entity, Nanos};

verus! {

broadcast use vstd::std_specs::hash::group_hash_axioms;

/// The time a packet takes to cross one cell: it moves two cells a second.
pub const PACKET_NANOS_PER_STEP: Nanos = 500_000_000;

/// `v`, or the largest `u64` when `v` does not fit.
pub open spec fn saturate(v: int) -> int {
    if v > u64::MAX { u64::MAX as int } else { v }
}

/// When a packet sent now over a route of length `len` would arrive,
/// counted from now, once a cooldown of `wait` is over.
pub open spec fn arrival(len: int, wait: int) -> int {
    saturate(saturate(len * PACKET_NANOS_PER_STEP) + wait)
}

/// An offer of a source to a sink: the route from the source, when the packet
/// would arrive, and whether the source is still cooling down from its last
/// send there.
#[derive(Debug)]
pub struct Candidate {
    pub source: Entity,
    pub route: Route,
    pub route_time: Nanos,
    pub on_cooldown: bool,
}

/// When the source last sent to `sink`, if it has.
pub open spec fn last_sent(source: &Source, sink: Entity) -> Option<Nanos> {
    if source.sent().contains_key(sink) {
        Some(source.sent()[sink])
    } else {
        None
    }
}

/// `sink` is a sink that a source holding `source.has` can serve along some
/// walk of `edges` from `from`.
pub open spec fn eligible(
    sinks: Map<Entity, Sink>,
    edges: Map<(Entity, Entity), Entity>,
    source: &Source,
    from: Entity,
    sink: Entity,
) -> bool {
    &&& sinks.contains_key(sink)
    &&& exists|r| #[trigger] pullable(sinks[sink], source.has, r)
    &&& connected(edges, from, sink)
}

/// The arrival time of the route the graph has remembered from `from` to
/// `sink`, when it remembers one that was found.
pub open spec fn offered_time(g: &Graph, source: &Source, from: Entity, sink: Entity, now: Nanos) -> Option<int> {
    match g.cached(from, sink) {
        Some(Some(found)) => Some(arrival(found.0 as int, cooldown_spec(last_sent(source, sink), now).1 as int)),
        _ => None,
    }
}

/// The graph remembers a found route from `from` to `sink` that would arrive
/// no sooner than `t0`.
pub open spec fn offered_no_sooner(
    g: &Graph,
    source: &Source,
    from: Entity,
    sink: Entity,
    now: Nanos,
    t0: int,
) -> bool {
    match offered_time(g, source, from, sink, now) {
        Some(t) => t0 <= t,
        None => false,
    }
}

fn arrival_exec(len: usize, wait: u64) -> (t: Nanos)
    ensures
        t == arrival(len as int, wait as int),
{
    let travel = match (len as u64).checked_mul(PACKET_NANOS_PER_STEP) {
        Some(t) => t,
        None => u64::MAX,
    };
    travel.saturating_add(wait)
}

/// The offer a source (the node `source_ent`, holding `source`) makes at time
/// `now`, its area graph going from `g0` to `g1`: of the nodes of its area that
/// it does not ignore, the sink it can serve, along a route of its graph, that
/// the packet would reach soonest; `None` when it can serve none.  The graph
/// keeps its shape and only remembers more routes.
pub open spec fn worker_offer(
    sinks: Map<Entity, Sink>,
    g0: AreaGraph,
    g1: AreaGraph,
    source_ent: Entity,
    source: Source,
    now: Nanos,
    offer: Option<(Entity, Candidate)>,
) -> bool {
    let targets = unexcluded(g0.data.node_seq(), g0.excluded());
    let edges = g0.data.edges();
    &&& g1.center == g0.center
    &&& g1.radius == g0.radius
    &&& g1.exclude == g0.exclude
    &&& g1.data.data_view() == g0.data.data_view()
    &&& g1.data.cache_ok()
    &&& offer is None <==> forall|i: int|
        0 <= i < targets.len() ==> !eligible(sinks, edges, &source, source_ent, #[trigger] targets[i])
    &&& offer matches Some(o) ==> {
        &&& targets.contains(o.0)
        &&& eligible(sinks, edges, &source, source_ent, o.0)
        &&& o.1.source == source_ent
        &&& g1.data.cached(source_ent, o.0) matches Some(Some(found))
        &&& found.1 == o.1.route@
        &&& o.1.route_time == arrival(found.0 as int, cooldown_spec(last_sent(&source, o.0), now).1 as int)
        &&& o.1.on_cooldown == cooldown_spec(last_sent(&source, o.0), now).0
        &&& forall|i: int|
            0 <= i < targets.len() && eligible(sinks, edges, &source, source_ent, #[trigger] targets[i])
                ==> offered_no_sooner(&g1.data, &source, source_ent, targets[i], now, o.1.route_time as int)
    }
}

/// The offer the source `source_ent` makes, as `worker_offer` says.
pub fn pull_worker(
    sinks: &HashMap<Entity, Sink>,
    links: &HashMap<Entity, Link>,
    nodes: &HashMap<Entity, Node>,
    now: Nanos,
    source_ent: Entity,
    source: &Source,
    ag: &mut AreaGraph,
) -> (offer: Option<(Entity, Candidate)>)
    requires
        old(ag).data.cache_ok(),
        old(ag).data.costs_ok(links@),
        graph_fits(old(ag).data.data_view(), links@, nodes@),
        nodes@.contains_key(source_ent),
        coord_ok(nodes@[source_ent].pos()),
    ensures
        worker_offer(sinks@, *old(ag), *final(ag), source_ent, *source, now, offer),
        final(ag).data.costs_ok(links@),
        offer matches Some(o) ==> answer_costs_ok(
            old(ag).data.edges(),
            links@,
            source_ent,
            o.0,
            final(ag).data.cached(source_ent, o.0)->0,
        ),
{
    let ghost targets = unexcluded(old(ag).data.node_seq(), old(ag).excluded());
    let ghost edges = old(ag).data.edges();
    let ghost view0 = old(ag).data.data_view();
    let (list, router) = ag.nodes_route();
    let mut best: Option<(Entity, Candidate)> = None;
    let mut i: usize = 0;
    while i < list.len()
        invariant
            list@ == targets,
            i <= list.len(),
            router.cache_ok(),
            router.costs_ok(links@),
            router.data_view() == view0,
            router.edges() == edges,
            graph_fits(view0, links@, nodes@),
            nodes@.contains_key(source_ent),
            coord_ok(nodes@[source_ent].pos()),
            best is None <==> forall|j: int|
                0 <= j < i ==> !eligible(sinks@, edges, source, source_ent, #[trigger] targets[j]),
            best matches Some(o) ==> {
                &&& targets.contains(o.0)
                &&& eligible(sinks@, edges, source, source_ent, o.0)
                &&& o.1.source == source_ent
                &&& router.cached(source_ent, o.0) matches Some(Some(found))
                &&& found.1 == o.1.route@
                &&& o.1.route_time == arrival(found.0 as int, cooldown_spec(last_sent(source, o.0), now).1 as int)
                &&& o.1.on_cooldown == cooldown_spec(last_sent(source, o.0), now).0
                &&& forall|j: int|
                    0 <= j < i && eligible(sinks@, edges, source, source_ent, #[trigger] targets[j])
                        ==> offered_no_sooner(router, source, source_ent, targets[j], now, o.1.route_time as int)
            },
        decreases list.len() - i,
    {
        let sink_ent = list[i];
        let ghost before = *router;
        let sink = match sinks.get(&sink_ent) {
            Some(s) => s,
            None => {
                i += 1;
                continue;
            },
        };
        if !serves(&source.has, sink) {
            i += 1;
            continue;
        }
        let found = router.route(links, nodes, source_ent, sink_ent);
        let (len, route) = match found {
            Some(p) => p,
            None => {
                i += 1;
                continue;
            },
        };
        assert(eligible(sinks@, edges, source, source_ent, targets[i as int]));
        let (on_cooldown, wait) = source.cooldown(sink_ent, now);
        let route_time = arrival_exec(len, wait);
        let better = match &best {
            None => true,
            Some(o) => route_time < o.1.route_time,
        };
        if better {
            best = Some((sink_ent, Candidate { source: source_ent, route, route_time, on_cooldown }));
        }
        i += 1;
    }
    proof {
        if best is Some {
            router.lemma_cached_costs(links@, source_ent, (best->0).0);
        }
    }
    best
}

/// `i` is an offer that would arrive no later than any other.
pub open spec fn soonest(cands: Seq<Candidate>, i: int) -> bool {
    &&& 0 <= i < cands.len()
    &&& forall|j: int| 0 <= j < cands.len() ==> cands[i].route_time <= #[trigger] cands[j].route_time
}

/// The first of the offers that would arrive soonest; `None` when there are
/// none.
pub fn soonest_index(cands: &Vec<Candidate>) -> (k: Option<usize>)
    ensures
        k is None <==> cands@.len() == 0,
        k matches Some(i) ==> soonest(cands@, i as int),
{
    if cands.len() == 0 {
        return None;
    }
    let mut best: usize = 0;
    let mut i: usize = 1;
    while i < cands.len()
        invariant
            1 <= i <= cands.len(),
            best < i,
            forall|j: int| 0 <= j < i ==> cands@[best as int].route_time <= #[trigger] cands@[j].route_time,
        decreases cands.len() - i,
    {
        if cands[i].route_time < cands[best].route_time {
            best = i;
        }
        i += 1;
    }
    Some(best)
}

/// A packet to send: one unit of `resource` from the node at `from` to the
/// sink `sink`, along `route`.
#[derive(Debug)]
pub struct Dispatch {
    pub resource: Resource,
    pub sink: Entity,
    pub from: Coord,
    pub route: Route,
}

/// The tables go from `src0`, `snk0` to `src1`, `snk1` when `sink` takes the
/// offer `c` at time `now`, and `d` is what is sent: nothing changes and
/// nothing is sent while the source cools down, when the source or the sink
/// is gone, or when the source has nothing the sink lacks; otherwise the two
/// pull and the packet leaves from the source's node along the offered route.
pub open spec fn takes_offer(
    src0: Map<Entity, Source>,
    src1: Map<Entity, Source>,
    snk0: Map<Entity, Sink>,
    snk1: Map<Entity, Sink>,
    nodes: Map<Entity, Node>,
    now: Nanos,
    sink: Entity,
    c: Candidate,
    d: Option<Dispatch>,
) -> bool {
    if c.on_cooldown || !src0.contains_key(c.source) || !snk0.contains_key(sink) {
        d is None && src1 == src0 && snk1 == snk0
    } else {
        exists|res: Option<Resource>|
            {
                &&& #[trigger] pulled(src0[c.source], src1[c.source], snk0[sink], snk1[sink], sink, now, res)
                &&& src1 == src0.insert(c.source, src1[c.source])
                &&& snk1 == snk0.insert(sink, snk1[sink])
                &&& match res {
                    None => d is None,
                    Some(r) => d matches Some(dd) && dd.resource == r && dd.sink == sink
                        && dd.from == nodes[c.source].pos() && dd.route@ == c.route@,
                }
            }
    }
}

/// The sink `sink` takes the offer, among `cands`, that arrives soonest, as
/// `takes_offer` says; with no offers nothing happens.
pub open spec fn sink_step(
    src0: Map<Entity, Source>,
    src1: Map<Entity, Source>,
    snk0: Map<Entity, Sink>,
    snk1: Map<Entity, Sink>,
    nodes: Map<Entity, Node>,
    now: Nanos,
    sink: Entity,
    cands: Seq<Candidate>,
    d: Option<Dispatch>,
) -> bool {
    &&& cands.len() == 0 ==> d is None && src1 == src0 && snk1 == snk0
    &&& cands.len() > 0 ==> exists|k: int|
        soonest(cands, k) && #[trigger] takes_offer(src0, src1, snk0, snk1, nodes, now, sink, cands[k], d)
}

/// The sink `sink_ent` takes the soonest of the offers `cands`, as
/// `sink_step` says.
pub fn pull_for_sink(
    sources: &mut HashMap<Entity, Source>,
    sinks: &mut HashMap<Entity, Sink>,
    nodes: &HashMap<Entity, Node>,
    now: Nanos,
    sink_ent: Entity,
    cands: &Vec<Candidate>,
) -> (d: Option<Dispatch>)
    requires
        forall|i: int|
            0 <= i < cands@.len() && old(sources)@.contains_key(#[trigger] cands@[i].source)
                ==> nodes@.contains_key(cands@[i].source),
    ensures
        sink_step(old(sources)@, final(sources)@, old(sinks)@, final(sinks)@, nodes@, now, sink_ent, cands@, d),
{
    let k = match soonest_index(cands) {
        None => {
            return None;
        },
        Some(k) => k,
    };
    let c = &cands[k];
    assert(soonest(cands@, k as int));
    if c.on_cooldown {
        assert(takes_offer(old(sources)@, sources@, old(sinks)@, sinks@, nodes@, now, sink_ent, cands@[k as int], None));
        return None;
    }
    let mut source = match sources.remove(&c.source) {
        Some(s) => s,
        None => {
            assert(sources@ =~= old(sources)@);
            assert(takes_offer(old(sources)@, sources@, old(sinks)@, sinks@, nodes@, now, sink_ent, cands@[k as int], None));
            return None;
        },
    };
    let mut sink = match sinks.get(&sink_ent) {
        Some(s) => *s,
        None => {
            sources.insert(c.source, source);
            proof {
                assert(sources@ =~= old(sources)@);
                assert(takes_offer(old(sources)@, sources@, old(sinks)@, sinks@, nodes@, now, sink_ent, cands@[k as int], None));
            }
            return None;
        },
    };
    let ghost src0 = source;
    let ghost snk0 = sink;
    let res = pull(&mut source, &mut sink, sink_ent, now);
    let ghost src1 = source;
    let ghost snk1 = sink;
    sources.insert(c.source, source);
    sinks.insert(sink_ent, sink);
    let d = match res {
        None => None,
        Some(r) => {
            let from = match nodes.get(&c.source) {
                Some(n) => n.at(),
                None => vstd::pervasive::unreached(),
            };
            Some(Dispatch { resource: r, sink: sink_ent, from, route: copy_route(&c.route) })
        },
    };
    proof {
        assert(sources@ =~= old(sources)@.insert(c.source, src1));
        assert(sinks@ =~= old(sinks)@.insert(sink_ent, snk1));
        assert(pulled(old(sources)@[c.source], sources@[c.source], old(sinks)@[sink_ent], sinks@[sink_ent], sink_ent, now, res));
        assert(takes_offer(old(sources)@, sources@, old(sinks)@, sinks@, nodes@, now, sink_ent, cands@[k as int], d));
    }
    d
}

/// Every area graph can route: it remembers only right answers, agrees with
/// the tables, and belongs to a node that stands where distances can be
/// computed.
pub open spec fn area_graphs_ok(
    graphs: Map<Entity, AreaGraph>,
    links: Map<Entity, Link>,
    nodes: Map<Entity, Node>,
) -> bool {
    forall|e: Entity| #[trigger]
        graphs.contains_key(e) ==> {
            &&& graphs[e].data.cache_ok()
            &&& graphs[e].data.costs_ok(links)
            &&& graph_fits(graphs[e].data.data_view(), links, nodes)
            &&& nodes.contains_key(e)
            &&& coord_ok(nodes[e].pos())
        }
}

/// The values of the `Some`s of `s`, in order.
pub open spec fn somes<T>(s: Seq<Option<T>>) -> Seq<T>
    decreases s.len(),
{
    if s.len() == 0 {
        Seq::empty()
    } else {
        let rest = somes(s.drop_last());
        match s.last() {
            Some(x) => rest.push(x),
            None => rest,
        }
    }
}

/// `keys` names, once each, the nodes that are both sources and owners of an
/// area graph; the `i`-th of them made the offer `outs[i]`, its graph going
/// from `g0` to `g1`.
pub open spec fn offers_made(
    sources: Map<Entity, Source>,
    g0: Map<Entity, AreaGraph>,
    g1: Map<Entity, AreaGraph>,
    sinks: Map<Entity, Sink>,
    now: Nanos,
    keys: Seq<Entity>,
    outs: Seq<Option<(Entity, Candidate)>>,
) -> bool {
    &&& keys.no_duplicates()
    &&& forall|e: Entity| #[trigger] keys.contains(e) <==> g0.contains_key(e) && sources.contains_key(e)
    &&& keys.len() == outs.len()
    &&& forall|i: int|
        #![trigger keys[i]]
        0 <= i < keys.len() ==> worker_offer(sinks, g0[keys[i]], g1[keys[i]], keys[i], sources[keys[i]], now, outs[i])
}

/// Every source that owns an area graph makes its offer, as `worker_offer`
/// says; the offers come back in the order the sources were asked.  Graphs
/// of nodes that are not sources stay as they were.
pub fn collect_offers(
    sources: &HashMap<Entity, Source>,
    graphs: &mut HashMap<Entity, AreaGraph>,
    sinks: &HashMap<Entity, Sink>,
    links: &HashMap<Entity, Link>,
    nodes: &HashMap<Entity, Node>,
    now: Nanos,
) -> (offers: Vec<(Entity, Candidate)>)
    requires
        area_graphs_ok(old(graphs)@, links@, nodes@),
    ensures
        area_graphs_ok(final(graphs)@, links@, nodes@),
        final(graphs)@.dom() == old(graphs)@.dom(),
        forall|e: Entity|
            #[trigger] old(graphs)@.contains_key(e) && !sources@.contains_key(e) ==> final(graphs)@[e]
                == old(graphs)@[e],
        exists|keys: Seq<Entity>, outs: Seq<Option<(Entity, Candidate)>>|
            #[trigger] offers_made(sources@, old(graphs)@, final(graphs)@, sinks@, now, keys, outs)
                && offers@ == somes(outs),
{
    let mut all: Vec<Entity> = Vec::new();
    let ghost kseq = graphs.keys().remaining();
    for k in it: graphs.keys()
        invariant
            kseq == it.seq(),
            all@.len() == it.index(),
            forall|i: int| #![trigger all@[i]] 0 <= i < all@.len() ==> all@[i] == *kseq[i],
    {
        all.push(*k);
    }
    proof {
        assert(all@ =~= kseq.unref());
    }
    let ghost g0 = graphs@;
    let mut offers: Vec<(Entity, Candidate)> = Vec::new();
    let ghost mut keys: Seq<Entity> = Seq::empty();
    let ghost mut outs: Seq<Option<(Entity, Candidate)>> = Seq::empty();
    let mut i: usize = 0;
    while i < all.len()
        invariant
            i <= all.len(),
            all@.no_duplicates(),
            all@.to_set() == g0.dom(),
            area_graphs_ok(g0, links@, nodes@),
            area_graphs_ok(graphs@, links@, nodes@),
            graphs@.dom() == g0.dom(),
            forall|j: int| i <= j < all@.len() ==> graphs@[#[trigger] all@[j]] == g0[all@[j]],
            forall|e: Entity|
                #[trigger] g0.contains_key(e) && !sources@.contains_key(e) ==> graphs@[e] == g0[e],
            keys.no_duplicates(),
            forall|e: Entity| #[trigger]
                keys.contains(e) <==> all@.take(i as int).contains(e) && sources@.contains_key(e),
            keys.len() == outs.len(),
            forall|j: int|
                #![trigger keys[j]]
                0 <= j < keys.len() ==> worker_offer(sinks@, g0[keys[j]], graphs@[keys[j]], keys[j], sources@[keys[j]], now, outs[j]),
            offers@ == somes(outs),
        decreases all.len() - i,
    {
        let e = all[i];
        proof {
            assert(all@.take(i + 1) =~= all@.take(i as int).push(e));
            assert(!all@.take(i as int).contains(e)) by {
                if all@.take(i as int).contains(e) {
                    let j = choose|j: int| 0 <= j < i && all@.take(i as int)[j] == e;
                    assert(all@[j] == all@[i as int]);
                }
            }
            assert(all@.to_set().contains(e));
        }
        match sources.get(&e) {
            None => {},
            Some(source) => {
                let mut g = match graphs.remove(&e) {
                    Some(g) => g,
                    None => vstd::pervasive::unreached(),
                };
                let ghost before = g;
                let o = pull_worker(sinks, links, nodes, now, e, source, &mut g);
                let ghost old_keys = keys;
                let ghost old_outs = outs;
                proof {
                    assert(!old_keys.contains(e));
                    assert forall|j: int| 0 <= j < old_keys.len() implies #[trigger] old_keys[j] != e by {
                        assert(old_keys.contains(old_keys[j]));
                    }
                    keys = keys.push(e);
                    outs = outs.push(o);
                }
                graphs.insert(e, g);
                match o {
                    Some(x) => offers.push(x),
                    None => {},
                }
                proof {
                    assert(outs.drop_last() =~= old_outs);
                    assert forall|x: Entity| keys.contains(x) <==> (old_keys.contains(x) || x == e) by {
                        if old_keys.contains(x) {
                            let j = choose|j: int| 0 <= j < old_keys.len() && old_keys[j] == x;
                            assert(keys[j] == x);
                        }
                        if x == e {
                            assert(keys[keys.len() - 1] == e);
                        }
                        if keys.contains(x) {
                            let j = choose|j: int| 0 <= j < keys.len() && keys[j] == x;
                            if j < keys.len() - 1 {
                                assert(old_keys[j] == x);
                            }
                        }
                    }
                    assert forall|j: int| #![trigger keys[j]] 0 <= j < keys.len() implies worker_offer(sinks@, g0[keys[j]], graphs@[keys[j]], keys[j], sources@[keys[j]], now, outs[j]) by {
                        if j < keys.len() - 1 {
                            assert(keys[j] == old_keys[j]);
                            assert(old_keys[j] != e);
                        }
                    }
                    assert forall|a: int, b: int| 0 <= a < b < keys.len() implies keys[a] != keys[b] by {
                        if b == keys.len() - 1 {
                            assert(old_keys[a] != e);
                        } else {
                            assert(old_keys[a] != old_keys[b]);
                        }
                    }
                }
            },
        }
        proof {
            assert forall|x: Entity| #[trigger] all@.take(i + 1).contains(x) <==> (all@.take(i as int).contains(x) || x == e) by {
                if all@.take(i as int).contains(x) {
                    let j = choose|j: int| 0 <= j < i && #[trigger] all@.take(i as int)[j] == x;
                    assert(all@.take(i + 1)[j] == x);
                }
                if x == e {
                    assert(all@.take(i + 1)[i as int] == e);
                }
                if all@.take(i + 1).contains(x) {
                    let j = choose|j: int| 0 <= j < i + 1 && #[trigger] all@.take(i + 1)[j] == x;
                    if j < i {
                        assert(all@.take(i as int)[j] == x);
                    }
                }
            }
        }
        i += 1;
    }
    proof {
        assert(all@.take(all@.len() as int) =~= all@);
        assert forall|e: Entity| #[trigger] keys.contains(e) <==> g0.contains_key(e) && sources@.contains_key(e) by {
            assert(all@.to_set().contains(e) <==> all@.contains(e));
        }
        assert(offers_made(sources@, g0, graphs@, sinks@, now, keys, outs));
    }
    offers
}

/// An offer made to `sink`.
pub open spec fn made_to(sink: Entity) -> spec_fn((Entity, Candidate)) -> bool {
    |o: (Entity, Candidate)| o.0 == sink
}

/// The offer itself, without the sink.
pub open spec fn offer_of() -> spec_fn((Entity, Candidate)) -> Candidate {
    |o: (Entity, Candidate)| o.1
}

/// The sinks that offers are made to, each at its first place, in order.
pub open spec fn first_sinks(offers: Seq<(Entity, Candidate)>) -> Seq<Entity>
    decreases offers.len(),
{
    if offers.len() == 0 {
        Seq::empty()
    } else {
        let d = first_sinks(offers.drop_last());
        if d.contains(offers.last().0) {
            d
        } else {
            d.push(offers.last().0)
        }
    }
}

/// The offers made to `sink`, in order.
pub open spec fn offers_for(offers: Seq<(Entity, Candidate)>, sink: Entity) -> Seq<Candidate> {
    offers.filter(made_to(sink)).map_values(offer_of())
}

/// `groups` holds, once for each sink that got an offer, the offers made to
/// it, in order.
pub open spec fn grouped(offers: Seq<(Entity, Candidate)>, sinks: Seq<Entity>, groups: Seq<Vec<Candidate>>) -> bool {
    &&& sinks.len() == groups.len()
    &&& sinks.no_duplicates()
    &&& forall|i: int| 0 <= i < sinks.len() ==> #[trigger] groups[i]@ == offers_for(offers, sinks[i])
    &&& forall|s: Entity| #[trigger] sinks.contains(s) <==> exists|k: int| 0 <= k < offers.len() && #[trigger] offers[k].0 == s
}

proof fn lemma_offers_for_step(offers: Seq<(Entity, Candidate)>, n: int, sink: Entity)
    requires
        0 <= n < offers.len(),
    ensures
        offers_for(offers.take(n + 1), sink) == if offers[n].0 == sink {
            offers_for(offers.take(n), sink).push(offers[n].1)
        } else {
            offers_for(offers.take(n), sink)
        },
{
    let p = made_to(sink);
    let f = offer_of();
    crate::util::lemma_filter_take_step(offers, p, n);
    if offers[n].0 == sink {
        assert(offers.take(n).filter(p).push(offers[n]).map_values(f) =~= offers.take(n).filter(p).map_values(f).push(offers[n].1));
    }
}

/// The offers, gathered by the sink they are made to: the sinks in the order
/// they first got an offer, and for each the offers it got, in order.
pub fn group_offers(offers: Vec<(Entity, Candidate)>) -> (r: (Vec<Entity>, Vec<Vec<Candidate>>))
    ensures
        grouped(offers@, r.0@, r.1@),
        r.0@ == first_sinks(offers@),
{
    let ghost all = offers@;
    assert(all.len() == offers.len());
    let mut rest = offers;
    let mut sinks: Vec<Entity> = Vec::new();
    let mut groups: Vec<Vec<Candidate>> = Vec::new();
    let mut n: usize = 0;
    while rest.len() > 0
        invariant
            n <= all.len(),
            all.len() <= usize::MAX,
            all.len() == n + rest@.len(),
            rest@ == all.skip(n as int),
            grouped(all.take(n as int), sinks@, groups@),
            sinks@ == first_sinks(all.take(n as int)),
        decreases rest.len(),
    {
        let ghost prefix = all.take(n as int);
        let o = rest.remove(0);
        assert(o == all[n as int]);
        let mut idx: usize = 0;
        while idx < sinks.len() && sinks[idx] != o.0
            invariant
                idx <= sinks.len(),
                forall|j: int| 0 <= j < idx ==> sinks@[j] != o.0,
            decreases sinks.len() - idx,
        {
            idx += 1;
        }
        let ghost old_sinks = sinks@;
        let ghost old_groups = groups@;
        if idx < sinks.len() {
            let mut g = groups.remove(idx);
            g.push(o.1);
            groups.insert(idx, g);
        } else {
            sinks.push(o.0);
            let mut g: Vec<Candidate> = Vec::new();
            g.push(o.1);
            groups.push(g);
        }
        proof {
            assert(all.take(n + 1) =~= prefix.push(all[n as int]));
            assert(all.take(n + 1).drop_last() =~= prefix);
            assert(old_sinks.contains(o.0) == (idx < old_sinks.len())) by {
                if idx < old_sinks.len() {
                    assert(old_sinks[idx as int] == o.0);
                }
            }
            if idx < old_sinks.len() {
                assert(sinks@ =~= old_sinks);
            }
            assert forall|i: int| 0 <= i < sinks@.len() implies #[trigger] groups@[i]@ == offers_for(all.take(n + 1), sinks@[i]) by {
                lemma_offers_for_step(all, n as int, sinks@[i]);
                if i < old_sinks.len() && sinks@[i] != o.0 {
                    assert(groups@[i] == old_groups[i]);
                } else if i == old_sinks.len() {
                    assert(offers_for(prefix, o.0) =~= Seq::<Candidate>::empty()) by {
                        assert(!old_sinks.contains(o.0));
                        if offers_for(prefix, o.0).len() > 0 {
                            let p = made_to(o.0);
                            let q = prefix.filter(p)[0];
                            assert(prefix.filter(p).contains(q));
                            prefix.lemma_filter_contains_rev(p, q);
                            let k = choose|k: int| 0 <= k < prefix.len() && prefix[k] == q;
                            assert(prefix[k].0 == o.0);
                        }
                    }
                    assert(groups@[i]@ =~= seq![o.1]);
                } else {
                    assert(groups@[i]@ =~= old_groups[i]@.push(o.1));
                }
            }
            assert forall|s: Entity| #[trigger] sinks@.contains(s) <==> exists|k: int| 0 <= k < all.take(n + 1).len() && #[trigger] all.take(n + 1)[k].0 == s by {
                if sinks@.contains(s) {
                    let i = choose|i: int| 0 <= i < sinks@.len() && sinks@[i] == s;
                    if i < old_sinks.len() {
                        assert(old_sinks.contains(s));
                        let k = choose|k: int| 0 <= k < prefix.len() && #[trigger] prefix[k].0 == s;
                        assert(all.take(n + 1)[k].0 == s);
                    } else {
                        assert(all.take(n + 1)[n as int].0 == s);
                    }
                }
                if exists|k: int| 0 <= k < all.take(n + 1).len() && #[trigger] all.take(n + 1)[k].0 == s {
                    let k = choose|k: int| 0 <= k < all.take(n + 1).len() && #[trigger] all.take(n + 1)[k].0 == s;
                    if k < n {
                        assert(prefix[k].0 == s);
                        assert(old_sinks.contains(s));
                        let i = choose|i: int| 0 <= i < old_sinks.len() && old_sinks[i] == s;
                        assert(sinks@[i] == s);
                    } else if idx < old_sinks.len() {
                        assert(sinks@[idx as int] == s);
                    } else {
                        assert(sinks@[old_sinks.len() as int] == s);
                    }
                }
            }
            assert(sinks@.no_duplicates()) by {
                if idx == old_sinks.len() {
                    assert forall|a: int, b: int| 0 <= a < b < sinks@.len() implies sinks@[a] != sinks@[b] by {
                        if b == old_sinks.len() {
                            assert(old_sinks[a] != o.0);
                        } else {
                            assert(old_sinks[a] != old_sinks[b]);
                        }
                    }
                }
            }
            assert(rest@ =~= all.skip(n + 1));
        }
        n += 1;
    }
    proof {
        assert(all.take(n as int) =~= all);
    }
    (sinks, groups)
}

/// The tables pass through `srcs` and `snks`, from `src0`, `snk0` to `src1`,
/// `snk1`, as the sinks `sink_ids`, in order, each take the soonest of their
/// offers `groups`; `outs` are the packets each step sends, and `sent` those
/// that were sent, in order.
pub open spec fn pull_trace(
    srcs: Seq<Map<Entity, Source>>,
    snks: Seq<Map<Entity, Sink>>,
    outs: Seq<Option<Dispatch>>,
    src0: Map<Entity, Source>,
    src1: Map<Entity, Source>,
    snk0: Map<Entity, Sink>,
    snk1: Map<Entity, Sink>,
    nodes: Map<Entity, Node>,
    now: Nanos,
    sink_ids: Seq<Entity>,
    groups: Seq<Vec<Candidate>>,
    sent: Seq<Dispatch>,
) -> bool {
    &&& srcs.len() == sink_ids.len() + 1
    &&& snks.len() == sink_ids.len() + 1
    &&& outs.len() == sink_ids.len()
    &&& srcs[0] == src0
    &&& snks[0] == snk0
    &&& srcs.last() == src1
    &&& snks.last() == snk1
    &&& forall|i: int|
        0 <= i < sink_ids.len() ==> #[trigger] sink_step(
            srcs[i],
            srcs[i + 1],
            snks[i],
            snks[i + 1],
            nodes,
            now,
            sink_ids[i],
            groups[i]@,
            outs[i],
        )
    &&& sent == somes(outs)
}

/// Each sink of `sink_ids` in turn takes the soonest of its offers, as
/// `sink_step` says, the tables going from `src0`, `snk0` to `src1`, `snk1`;
/// `sent` are the packets sent, in order.
pub open spec fn pulls_made(
    src0: Map<Entity, Source>,
    src1: Map<Entity, Source>,
    snk0: Map<Entity, Sink>,
    snk1: Map<Entity, Sink>,
    nodes: Map<Entity, Node>,
    now: Nanos,
    sink_ids: Seq<Entity>,
    groups: Seq<Vec<Candidate>>,
    sent: Seq<Dispatch>,
) -> bool {
    exists|srcs: Seq<Map<Entity, Source>>, snks: Seq<Map<Entity, Sink>>, outs: Seq<Option<Dispatch>>|
        #[trigger] pull_trace(srcs, snks, outs, src0, src1, snk0, snk1, nodes, now, sink_ids, groups, sent)
}

/// Each sink of `sink_ids`, in turn, takes the soonest of its offers.
pub fn pull_groups(
    sources: &mut HashMap<Entity, Source>,
    sinks: &mut HashMap<Entity, Sink>,
    nodes: &HashMap<Entity, Node>,
    now: Nanos,
    sink_ids: &Vec<Entity>,
    groups: &Vec<Vec<Candidate>>,
) -> (sent: Vec<Dispatch>)
    requires
        sink_ids@.len() == groups@.len(),
        forall|i: int, j: int|
            0 <= i < groups@.len() && 0 <= j < groups@[i]@.len() ==> nodes@.contains_key(
                #[trigger] groups@[i]@[j].source,
            ),
    ensures
        pulls_made(old(sources)@, final(sources)@, old(sinks)@, final(sinks)@, nodes@, now, sink_ids@, groups@, sent@),
{
    let ghost mut srcs: Seq<Map<Entity, Source>> = seq![sources@];
    let ghost mut snks: Seq<Map<Entity, Sink>> = seq![sinks@];
    let ghost mut outs: Seq<Option<Dispatch>> = Seq::empty();
    let mut sent: Vec<Dispatch> = Vec::new();
    let mut i: usize = 0;
    while i < sink_ids.len()
        invariant
            i <= sink_ids.len(),
            sink_ids@.len() == groups@.len(),
            forall|a: int, b: int|
                0 <= a < groups@.len() && 0 <= b < groups@[a]@.len() ==> nodes@.contains_key(
                    #[trigger] groups@[a]@[b].source,
                ),
            srcs.len() == i + 1,
            snks.len() == i + 1,
            outs.len() == i,
            srcs[0] == old(sources)@,
            snks[0] == old(sinks)@,
            srcs.last() == sources@,
            snks.last() == sinks@,
            forall|j: int|
                0 <= j < i ==> #[trigger] sink_step(
                    srcs[j],
                    srcs[j + 1],
                    snks[j],
                    snks[j + 1],
                    nodes@,
                    now,
                    sink_ids@[j],
                    groups@[j]@,
                    outs[j],
                ),
            sent@ == somes(outs),
        decreases sink_ids.len() - i,
    {
        let d = pull_for_sink(sources, sinks, nodes, now, sink_ids[i], &groups[i]);
        let ghost old_outs = outs;
        proof {
            srcs = srcs.push(sources@);
            snks = snks.push(sinks@);
            outs = outs.push(d);
            assert(outs.drop_last() =~= old_outs);
        }
        match d {
            Some(x) => sent.push(x),
            None => {},
        }
        proof {
            assert forall|j: int|
                0 <= j < i + 1 implies #[trigger] sink_step(
                    srcs[j],
                    srcs[j + 1],
                    snks[j],
                    snks[j + 1],
                    nodes@,
                    now,
                    sink_ids@[j],
                    groups@[j]@,
                    outs[j],
                ) by {
                if j < i {
                    assert(outs[j] == old_outs[j]);
                }
            }
        }
        i += 1;
    }
    proof {
        assert(pull_trace(srcs, snks, outs, old(sources)@, sources@, old(sinks)@, sinks@, nodes@, now, sink_ids@, groups@, sent@));
    }
    sent
}

proof fn lemma_somes_from<T>(s: Seq<Option<T>>, x: T)
    requires
        somes(s).contains(x),
    ensures
        exists|i: int| 0 <= i < s.len() && s[i] == Some(x),
    decreases s.len(),
{
    if s.len() > 0 {
        let rest = s.drop_last();
        if somes(rest).contains(x) {
            lemma_somes_from(rest, x);
            let i = choose|i: int| 0 <= i < rest.len() && rest[i] == Some(x);
            assert(s[i] == Some(x));
        } else {
            match s.last() {
                Some(y) => {
                    let j = choose|j: int| 0 <= j < somes(s).len() && somes(s)[j] == x;
                    if j < somes(rest).len() {
                        assert(somes(rest)[j] == x);
                    }
                    assert(s[s.len() - 1] == Some(x));
                },
                None => {},
            }
        }
    }
}

proof fn lemma_offers_for_from(offers: Seq<(Entity, Candidate)>, sink: Entity, j: int)
    requires
        0 <= j < offers_for(offers, sink).len(),
    ensures
        exists|k: int| 0 <= k < offers.len() && offers[k].1 == offers_for(offers, sink)[j],
{
    let f = offers.filter(made_to(sink));
    let o = f[j];
    assert(f.contains(o));
    offers.lemma_filter_contains_rev(made_to(sink), o);
    let k = choose|k: int| 0 <= k < offers.len() && offers[k] == o;
    assert(offers[k].1 == offers_for(offers, sink)[j]);
}

/// One round of pulling at time `now`: every source that owns an area graph
/// offers itself to the sink it reaches soonest (`collect_offers`); the
/// offers are gathered by sink (`group_offers`); and each sink, in turn,
/// takes the soonest offer it got (`pull_groups`).  Returns the packets to
/// send.
pub fn pull_all(
    sources: &mut HashMap<Entity, Source>,
    graphs: &mut HashMap<Entity, AreaGraph>,
    sinks: &mut HashMap<Entity, Sink>,
    links: &HashMap<Entity, Link>,
    nodes: &HashMap<Entity, Node>,
    now: Nanos,
) -> (sent: Vec<Dispatch>)
    requires
        area_graphs_ok(old(graphs)@, links@, nodes@),
    ensures
        area_graphs_ok(final(graphs)@, links@, nodes@),
        final(graphs)@.dom() == old(graphs)@.dom(),
        forall|e: Entity|
            #[trigger] old(graphs)@.contains_key(e) && !old(sources)@.contains_key(e) ==> final(graphs)@[e]
                == old(graphs)@[e],
        exists|
            keys: Seq<Entity>,
            outs: Seq<Option<(Entity, Candidate)>>,
            sink_ids: Seq<Entity>,
            groups: Seq<Vec<Candidate>>,
        |
            {
                &&& #[trigger] offers_made(old(sources)@, old(graphs)@, final(graphs)@, old(sinks)@, now, keys, outs)
                &&& #[trigger] grouped(somes(outs), sink_ids, groups)
                &&& pulls_made(old(sources)@, final(sources)@, old(sinks)@, final(sinks)@, nodes@, now, sink_ids, groups, sent@)
            },
{
    let ghost g0 = graphs@;
    let offers = collect_offers(sources, graphs, sinks, links, nodes, now);
    let ghost (keys, outs) = choose|keys: Seq<Entity>, outs: Seq<Option<(Entity, Candidate)>>|
        #[trigger] offers_made(sources@, g0, graphs@, sinks@, now, keys, outs) && offers@ == somes(outs);
    let ghost all = offers@;
    let (sink_ids, groups) = group_offers(offers);
    proof {
        assert forall|i: int, j: int|
            0 <= i < groups@.len() && 0 <= j < groups@[i]@.len() implies nodes@.contains_key(
                #[trigger] groups@[i]@[j].source,
            ) by {
            assert(groups@[i]@ == offers_for(all, sink_ids@[i]));
            lemma_offers_for_from(all, sink_ids@[i], j);
            let k = choose|k: int| 0 <= k < all.len() && all[k].1 == offers_for(all, sink_ids@[i])[j];
            assert(somes(outs).contains(all[k]));
            lemma_somes_from(outs, all[k]);
            let q = choose|q: int| 0 <= q < outs.len() && outs[q] == Some(all[k]);
            assert(worker_offer(sinks@, g0[keys[q]], graphs@[keys[q]], keys[q], sources@[keys[q]], now, outs[q]));
            assert(keys.contains(keys[q]));
            assert(g0.contains_key(keys[q]));
        }
    }
    let sent = pull_groups(sources, sinks, nodes, now, &sink_ids, &groups);
    proof {
        assert(offers_made(old(sources)@, old(graphs)@, graphs@, old(sinks)@, now, keys, outs));
        assert(grouped(somes(outs), sink_ids@, groups@));
    }
    sent
}


/// `places` tells, for each value of `somes(s)`, the place of `s` it comes
/// from, in increasing order.
pub open spec fn somes_places<T>(s: Seq<Option<T>>, places: Seq<int>) -> bool {
    &&& places.len() == somes(s).len()
    &&& forall|k: int| #![trigger places[k]] 0 <= k < places.len() ==> 0 <= places[k] < s.len() && s[places[k]] == Some(somes(s)[k])
    &&& forall|a: int, b: int| 0 <= a < b < places.len() ==> places[a] < places[b]
}

/// Every value of `somes(s)` comes from a `Some` of `s`, the later ones from
/// later places.
proof fn lemma_somes_places<T>(s: Seq<Option<T>>)
    ensures
        exists|places: Seq<int>| #[trigger] somes_places(s, places),
    decreases s.len(),
{
    if s.len() == 0 {
        let places: Seq<int> = Seq::empty();
        assert(somes_places(s, places));
    } else {
        let rest = s.drop_last();
        lemma_somes_places(rest);
        let p = choose|places: Seq<int>| #[trigger] somes_places(rest, places);
        match s.last() {
            Some(x) => {
                let q = p.push(s.len() - 1);
                assert(somes(s) == somes(rest).push(x));
                assert forall|k: int| #![trigger q[k]] 0 <= k < q.len() implies 0 <= q[k] < s.len() && s[q[k]] == Some(somes(s)[k]) by {
                    if k < p.len() {
                        assert(q[k] == p[k]);
                        assert(s[p[k]] == rest[p[k]]);
                    }
                }
                assert(q.len() == somes(s).len());
                assert(somes_places(s, q));
            },
            None => {
                assert(somes(s) == somes(rest));
                assert forall|k: int| #![trigger p[k]] 0 <= k < p.len() implies 0 <= p[k] < s.len() && s[p[k]] == Some(somes(s)[k]) by {
                    assert(s[p[k]] == rest[p[k]]);
                }
                assert(somes_places(s, p));
            },
        }
    }
}

/// In one round of pulling, no sink is sent more than one packet: each sink
/// takes at most one offer, and a sink's packet is addressed to it.
pub proof fn law_one_packet_per_sink(
    src0: Map<Entity, Source>,
    src1: Map<Entity, Source>,
    snk0: Map<Entity, Sink>,
    snk1: Map<Entity, Sink>,
    nodes: Map<Entity, Node>,
    now: Nanos,
    offers: Seq<(Entity, Candidate)>,
    sink_ids: Seq<Entity>,
    groups: Seq<Vec<Candidate>>,
    sent: Seq<Dispatch>,
)
    requires
        grouped(offers, sink_ids, groups),
        pulls_made(src0, src1, snk0, snk1, nodes, now, sink_ids, groups, sent),
    ensures
        forall|a: int, b: int| 0 <= a < b < sent.len() ==> sent[a].sink != sent[b].sink,
        forall|a: int| 0 <= a < sent.len() ==> sink_ids.contains(#[trigger] sent[a].sink),
{
    let (srcs, snks, outs) = choose|srcs: Seq<Map<Entity, Source>>, snks: Seq<Map<Entity, Sink>>, outs: Seq<Option<Dispatch>>|
        #[trigger] pull_trace(srcs, snks, outs, src0, src1, snk0, snk1, nodes, now, sink_ids, groups, sent);
    lemma_somes_places(outs);
    let places = choose|places: Seq<int>| #[trigger] somes_places(outs, places);
    assert forall|k: int| 0 <= k < sent.len() implies #[trigger] sent[k].sink == sink_ids[places[k]] by {
        let i = places[k];
        assert(sink_step(srcs[i], srcs[i + 1], snks[i], snks[i + 1], nodes, now, sink_ids[i], groups[i]@, outs[i]));
        if groups[i]@.len() > 0 {
            let j = choose|j: int| soonest(groups[i]@, j) && #[trigger] takes_offer(srcs[i], srcs[i + 1], snks[i], snks[i + 1], nodes, now, sink_ids[i], groups[i]@[j], outs[i]);
            let c = groups[i]@[j];
            if !(c.on_cooldown || !srcs[i].contains_key(c.source) || !snks[i].contains_key(sink_ids[i])) {
                let res = choose|res: Option<Resource>|
                    {
                        &&& #[trigger] pulled(srcs[i][c.source], srcs[i + 1][c.source], snks[i][sink_ids[i]], snks[i + 1][sink_ids[i]], sink_ids[i], now, res)
                        &&& srcs[i + 1] == srcs[i].insert(c.source, srcs[i + 1][c.source])
                        &&& snks[i + 1] == snks[i].insert(sink_ids[i], snks[i + 1][sink_ids[i]])
                        &&& match res {
                            None => outs[i] is None,
                            Some(r) => outs[i] matches Some(dd) && dd.resource == r && dd.sink == sink_ids[i]
                                && dd.from == nodes[c.source].pos() && dd.route@ == c.route@,
                        }
                    };
            }
        }
    }
    assert forall|a: int, b: int| 0 <= a < b < sent.len() implies sent[a].sink != sent[b].sink by {
        assert(sent[a].sink == sink_ids[places[a]]);
        assert(sent[b].sink == sink_ids[places[b]]);
        assert(places[a] < places[b]);
    }
    assert forall|a: int| 0 <= a < sent.len() implies sink_ids.contains(#[trigger] sent[a].sink) by {
        assert(sent[a].sink == sink_ids[places[a]]);
    }
}

} // verus!
