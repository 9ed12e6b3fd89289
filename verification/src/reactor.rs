//! Reactors: nodes that turn the resources their sink gathered into the
//! resources their source offers, one timed reaction at a time.

use hibitset::BitSet;

use vstd::prelude::*;

use crate::bits::{bitset_add, bitset_contains, bitset_ids, bitset_new};
use crate::resource::{capped, overflow, Pool, Resource, Sink, Source, RESOURCE_COUNT};
use crate::hex::{coord_ok, hex_distance, Coord, Direction};
use crate::Nanos;

verus! {

/// A timed piece of work under way: how far it got and how long it takes.
#[derive(Debug)]
pub struct ActiveProgress {
    pub at: Nanos,
    pub target: Nanos,
    pub label: String,
}

/// The work a node has under way, if any.
#[derive(Debug)]
pub struct Progress {
    pub made: Option<ActiveProgress>,
}

/// Work at `at` of `target` is finished: it reached its length, which the
/// finished fraction `at / target` reports as at least one (a length of zero
/// with nothing done reports no fraction, and never finishes).
pub open spec fn finished(at: Nanos, target: Nanos) -> bool {
    at >= target && at > 0
}

/// Work under way and not yet at its length moves on by `inc` from `p0` to
/// `p1`; finished work, and no work, stay as they were.
pub open spec fn advanced(p0: Progress, p1: Progress, inc: Nanos) -> bool {
    match p0.made {
        None => p1.made is None,
        Some(a) => p1.made matches Some(b) && b.target == a.target && b.label@ == a.label@ && b.at == (
        if a.at >= a.target {
            a.at
        } else {
            (a.at + inc) as Nanos
        }),
    }
}

impl Progress {
    pub fn new() -> (p: Progress)
        ensures
            p.made is None,
    {
        Progress { made: None }
    }

    /// Starts work of length `target`.
    pub fn start(&mut self, target: Nanos, label: String)
        ensures
            final(self).made matches Some(a) && a.at == 0 && a.target == target && a.label@ == label@,
    {
        self.made = Some(ActiveProgress { at: 0, target, label });
    }

    pub fn clear(&mut self)
        ensures
            final(self).made is None,
    {
        self.made = None;
    }

    /// Whether the work under way is finished.
    pub fn is_done(&self) -> (b: bool)
        ensures
            b == (self.made matches Some(a) && finished(a.at, a.target)),
    {
        match &self.made {
            Some(a) => a.at >= a.target && a.at > 0,
            None => false,
        }
    }

    /// Work under way and not yet at its length moves on by `inc`.
    pub fn advance(&mut self, inc: Nanos)
        requires
            old(self).made matches Some(a) ==> a.at + inc <= u64::MAX,
        ensures
            advanced(*old(self), *final(self), inc),
    {
        match &mut self.made {
            Some(a) => {
                if a.at < a.target {
                    a.at = a.at + inc;
                }
            },
            None => {},
        }
    }
}

/// A node that turns `input` into `output`, taking `delay` for each reaction,
/// and reacting only while its source lacks one of the `targets`.
#[derive(Debug)]
pub struct Reactor {
    pub input: Pool,
    pub delay: Nanos,
    pub output: Pool,
    pub targets: BitSet,
}

impl Reactor {
    /// A reactor turning `input` into `output` every `delay`; every resource
    /// of the output's list (all of them) is a target.
    pub fn new(input: Pool, delay: Nanos, output: Pool) -> (r: Reactor)
        ensures
            r.input == input,
            r.delay == delay,
            r.output == output,
            forall|id: u32| #[trigger] bitset_ids(r.targets).contains(id) <==> id < RESOURCE_COUNT,
    {
        let mut targets = bitset_new();
        let entries = output.iter();
        let mut i: usize = 0;
        while i < entries.len()
            invariant
                i <= entries.len(),
                entries@.len() == RESOURCE_COUNT,
                forall|j: int|
                    #![trigger entries@[j]]
                    0 <= j < RESOURCE_COUNT ==> entries@[j].0 == Resource::at_ord(j),
                forall|id: u32| #[trigger] bitset_ids(targets).contains(id) <==> id < i,
            decreases entries.len() - i,
        {
            let (r, _) = entries[i];
            let id = r.index() as u32;
            bitset_add(&mut targets, id);
            i += 1;
        }
        Reactor { input, delay, output, targets }
    }

    pub fn input(&self) -> (p: &Pool)
        ensures
            *p == self.input,
    {
        &self.input
    }

    pub fn output(&self) -> (p: &Pool)
        ensures
            *p == self.output,
    {
        &self.output
    }

    pub fn targets(&self) -> (b: &BitSet)
        ensures
            *b == self.targets,
    {
        &self.targets
    }

    pub fn targets_mut(&mut self) -> (b: &mut BitSet)
        ensures
            *b == old(self).targets,
            final(self).targets == *final(b),
            final(self).input == old(self).input,
            final(self).delay == old(self).delay,
            final(self).output == old(self).output,
    {
        &mut self.targets
    }
}

/// What does not fit into `has` when `out` is added to it: for each resource,
/// in the fixed order, among the first `n`, that overflows its cap, the
/// resource and the part that did not fit.
pub open spec fn spills(has: Pool, out: Pool, n: int) -> Seq<(Resource, usize)>
    decreases n,
{
    if n <= 0 {
        Seq::empty()
    } else {
        let r = Resource::at_ord(n - 1);
        let rest = spills(has, out, n - 1);
        match overflow(has.amount(r) + out.amount(r), has.limit(r) as int) {
            Some(w) => rest.push((r, w)),
            None => rest,
        }
    }
}

/// How much of `r` the list `w` holds, over all its entries.
pub open spec fn listed(w: Seq<(Resource, usize)>, r: Resource) -> int
    decreases w.len(),
{
    if w.len() == 0 {
        0
    } else {
        listed(w.drop_last(), r) + if w.last().0 == r {
            w.last().1 as int
        } else {
            0
        }
    }
}

/// What `spills` lists of `r` among the first `n` resources: the part of
/// `r` above its cap once `out` is added, nothing when it fits.
proof fn lemma_spills_listed(has: Pool, out: Pool, n: int, r: Resource)
    requires
        0 <= n <= RESOURCE_COUNT,
        forall|q: Resource| #[trigger] has.amount(q) + out.amount(q) <= usize::MAX,
    ensures
        listed(spills(has, out, n), r) == if r.ord() < n && has.amount(r) + out.amount(r) > has.limit(r) {
            has.amount(r) + out.amount(r) - has.limit(r)
        } else {
            0
        },
        forall|i: int| 0 <= i < spills(has, out, n).len() ==> #[trigger] spills(has, out, n)[i].1 > 0,
    decreases n,
{
    crate::resource::lemma_ord_bijective(r);
    if n > 0 {
        let q = Resource::at_ord(n - 1);
        let rest = spills(has, out, n - 1);
        lemma_spills_listed(has, out, n - 1, r);
        crate::resource::lemma_ord_bijective(q);
        assert(q == r <==> r.ord() == n - 1);
        assert(has.amount(q) + out.amount(q) <= usize::MAX);
        match overflow(has.amount(q) + out.amount(q), has.limit(q) as int) {
            Some(w) => {
                let s = rest.push((q, w));
                assert(spills(has, out, n) == s);
                assert(s.drop_last() =~= rest);
                assert(w > 0);
                assert forall|i: int| 0 <= i < s.len() implies #[trigger] s[i].1 > 0 by {
                    if i < rest.len() {
                        assert(s[i] == rest[i]);
                    }
                }
            },
            None => {
                assert(spills(has, out, n) == rest);
            },
        }
    }
}

/// What a finished reaction makes is kept or wasted, never lost or made up:
/// for every resource, what the source holds afterwards and what the waste
/// lists of it together come to what it held before plus the output, and
/// the waste lists only what went over the source's cap.
pub proof fn law_output_kept_or_wasted(has0: Pool, has1: Pool, out: Pool, w: Seq<(Resource, usize)>, r: Resource)
    requires
        forall|q: Resource| #[trigger] has0.amount(q) + out.amount(q) <= usize::MAX,
        w == spills(has0, out, RESOURCE_COUNT as int),
        has1.amount(r) == capped(has0.amount(r) + out.amount(r), has0.limit(r) as int),
    ensures
        has1.amount(r) + listed(w, r) == has0.amount(r) + out.amount(r),
        has0.amount(r) + out.amount(r) <= has0.limit(r) ==> listed(w, r) == 0,
        has0.amount(r) + out.amount(r) > has0.limit(r) ==> has1.amount(r) == has0.limit(r),
        forall|i: int| 0 <= i < w.len() ==> #[trigger] w[i].1 > 0,
{
    lemma_spills_listed(has0, out, RESOURCE_COUNT as int, r);
    crate::resource::lemma_ord_bijective(r);
}

/// A finished reaction ends: the progress clears and the output joins what
/// the source has, each resource up to its cap.  Returns, when the reaction
/// was finished, what did not fit, as `spills` lists it (it goes to waste);
/// `None`, changing nothing, when no reaction was finished.
pub fn finish_reaction(reactor: &Reactor, progress: &mut Progress, source: &mut Source) -> (waste:
    Option<Vec<(Resource, usize)>>)
    requires
        forall|r: Resource| #[trigger] old(source).has.amount(r) + reactor.output.amount(r) <= usize::MAX,
    ensures
        waste is Some <==> (old(progress).made matches Some(a) && finished(a.at, a.target)),
        waste is None ==> final(progress).made == old(progress).made && *final(source) == *old(source),
        waste matches Some(w) ==> {
            &&& final(progress).made is None
            &&& w@ == spills(old(source).has, reactor.output, RESOURCE_COUNT as int)
            &&& forall|r: Resource|
                #![trigger listed(w@, r)]
                final(source).has.amount(r) + listed(w@, r) == old(source).has.amount(r)
                    + reactor.output.amount(r)
            &&& final(source).last_send == old(source).last_send
            &&& forall|r: Resource|
                #![trigger final(source).has.amount(r)]
                final(source).has.amount(r) == capped(
                    old(source).has.amount(r) + reactor.output.amount(r),
                    old(source).has.limit(r) as int,
                ) && final(source).has.limit(r) == old(source).has.limit(r)
        },
{
    if !progress.is_done() {
        return None;
    }
    progress.clear();
    let ghost has0 = source.has;
    let outs = reactor.output.iter();
    let mut waste: Vec<(Resource, usize)> = Vec::new();
    let mut i: usize = 0;
    while i < outs.len()
        invariant
            i <= outs.len(),
            outs@.len() == RESOURCE_COUNT,
            forall|j: int|
                #![trigger outs@[j]]
                0 <= j < RESOURCE_COUNT ==> outs@[j] == (Resource::at_ord(j), reactor.output.amount(Resource::at_ord(j))),
            forall|r: Resource| #[trigger] has0.amount(r) + reactor.output.amount(r) <= usize::MAX,
            waste@ == spills(has0, reactor.output, i as int),
            forall|r: Resource|
                #![trigger source.has.amount(r)]
                source.has.limit(r) == has0.limit(r) && source.has.amount(r) == if r.ord() < i {
                    capped(has0.amount(r) + reactor.output.amount(r), has0.limit(r) as int)
                } else {
                    has0.amount(r) as int
                },
            source.last_send == old(source).last_send,
        decreases outs.len() - i,
    {
        let (res, count) = outs[i];
        proof {
            crate::resource::lemma_ord_bijective(res);
            assert(res.ord() == i);
        }
        let ghost before = source.has;
        let over = source.has.inc_by(res, count);
        match over {
            Some(w) => waste.push((res, w)),
            None => {},
        }
        proof {
            assert forall|r: Resource|
                #![trigger source.has.amount(r)]
                source.has.limit(r) == has0.limit(r) && source.has.amount(r) == if r.ord() < i + 1 {
                    capped(has0.amount(r) + reactor.output.amount(r), has0.limit(r) as int)
                } else {
                    has0.amount(r) as int
                } by {
                if r != res {
                    assert(source.has.amount(r) == before.amount(r));
                    assert(source.has.limit(r) == before.limit(r));
                    crate::resource::lemma_ord_bijective(r);
                }
            }
        }
        i += 1;
    }
    proof {
        assert forall|r: Resource| #![trigger listed(waste@, r)]
            source.has.amount(r) + listed(waste@, r) == has0.amount(r) + reactor.output.amount(r) by {
            crate::resource::lemma_ord_bijective(r);
            law_output_kept_or_wasted(has0, source.has, reactor.output, waste@, r);
        }
    }
    Some(waste)
}

/// The sink has all of the reactor's input.
pub open spec fn has_inputs(reactor: &Reactor, sink: Sink) -> bool {
    forall|r: Resource| #[trigger] sink.has.amount(r) >= reactor.input.amount(r)
}

/// The source lacks some target resource: it has less of it than one reaction
/// makes.
pub open spec fn needs_output(reactor: &Reactor, source: &Source) -> bool {
    exists|r: Resource|
        #[trigger] bitset_ids(reactor.targets).contains(r.ord() as u32) && source.has.amount(r)
            < reactor.output.amount(r)
}

/// Whether a reaction may start: none is under way, the sink has the input,
/// and the source lacks some target.
pub fn ready_to_react(reactor: &Reactor, progress: &Progress, source: &Source, sink: &Sink) -> (b: bool)
    ensures
        b == (progress.made is None && has_inputs(reactor, *sink) && needs_output(reactor, source)),
{
    if progress.made.is_some() {
        return false;
    }
    let mut i: usize = 0;
    while i < RESOURCE_COUNT
        invariant
            i <= RESOURCE_COUNT,
            forall|r: Resource| r.ord() < i ==> #[trigger] sink.has.amount(r) >= reactor.input.amount(r),
        decreases RESOURCE_COUNT - i,
    {
        let r = Resource::from_index(i);
        if sink.has.get(r) < reactor.input.get(r) {
            return false;
        }
        proof {
            assert forall|q: Resource| q.ord() == i implies q == r by {
                crate::resource::lemma_ord_bijective(q);
            }
        }
        i += 1;
    }
    proof {
        assert forall|r: Resource| #[trigger] sink.has.amount(r) >= reactor.input.amount(r) by {
            assert(r.ord() < RESOURCE_COUNT);
        }
    }
    let mut j: usize = 0;
    while j < RESOURCE_COUNT
        invariant
            j <= RESOURCE_COUNT,
            progress.made is None,
            has_inputs(reactor, *sink),
            forall|r: Resource|
                r.ord() < j ==> !(#[trigger] bitset_ids(reactor.targets).contains(r.ord() as u32)
                    && source.has.amount(r) < reactor.output.amount(r)),
        decreases RESOURCE_COUNT - j,
    {
        let r = Resource::from_index(j);
        let id = r.index() as u32;
        if bitset_contains(&reactor.targets, id) && source.has.get(r) < reactor.output.get(r) {
            assert(bitset_ids(reactor.targets).contains(r.ord() as u32));
            return true;
        }
        proof {
            assert forall|q: Resource| q.ord() == j implies q == r by {
                crate::resource::lemma_ord_bijective(q);
            }
        }
        j += 1;
    }
    false
}

/// `has` is `has0` with `input` taken out of the first `n` resources.
pub open spec fn drained(has: Pool, has0: Pool, input: Pool, n: int) -> bool {
    &&& forall|r: Resource| #[trigger] has.limit(r) == has0.limit(r)
    &&& forall|r: Resource|
        #[trigger] has.amount(r) == if r.ord() < n {
            has0.amount(r) - input.amount(r)
        } else {
            has0.amount(r) as int
        }
}

proof fn lemma_drain_step(has: Pool, before: Pool, has0: Pool, input: Pool, res: Resource, n: int)
    requires
        drained(before, has0, input, n),
        res.ord() == n,
        has.amount(res) == before.amount(res) - input.amount(res),
        has.limit(res) == before.limit(res),
        forall|r: Resource| r != res ==> #[trigger] has.amount(r) == before.amount(r) && has.limit(r) == before.limit(r),
    ensures
        drained(has, has0, input, n + 1),
{
    assert forall|r: Resource| #[trigger] has.limit(r) == has0.limit(r) by {
        assert(before.limit(r) == has0.limit(r));
        if r != res {
            assert(has.amount(r) == before.amount(r));
            assert(has.limit(r) == before.limit(r));
        }
    }
    assert forall|r: Resource|
        #[trigger] has.amount(r) == if r.ord() < n + 1 {
            has0.amount(r) - input.amount(r)
        } else {
            has0.amount(r) as int
        } by {
        crate::resource::lemma_ord_bijective(r);
        assert(before.amount(r) == before.amount(r));
        if r != res {
            assert(r.ord() != n);
        }
    }
}

/// A reaction starts: the input leaves the sink and work of the reactor's
/// delay begins.
pub fn start_reaction(reactor: &Reactor, progress: &mut Progress, sink: &mut Sink)
    requires
        has_inputs(reactor, *old(sink)),
    ensures
        final(progress).made matches Some(a) && a.at == 0 && a.target == reactor.delay && a.label@
            == "Reaction"@,
        final(sink).want == old(sink).want,
        final(sink).in_transit == old(sink).in_transit,
        forall|r: Resource|
            #![trigger final(sink).has.amount(r)]
            final(sink).has.amount(r) == old(sink).has.amount(r) - reactor.input.amount(r)
                && final(sink).has.limit(r) == old(sink).has.limit(r),
{
    let ins = reactor.input.iter();
    let ghost has0 = sink.has;
    let mut i: usize = 0;
    while i < ins.len()
        invariant
            i <= ins.len(),
            ins@.len() == RESOURCE_COUNT,
            forall|j: int|
                #![trigger ins@[j]]
                0 <= j < RESOURCE_COUNT ==> ins@[j] == (Resource::at_ord(j), reactor.input.amount(Resource::at_ord(j))),
            forall|r: Resource| #[trigger] has0.amount(r) >= reactor.input.amount(r),
            sink.want == old(sink).want,
            sink.in_transit == old(sink).in_transit,
            drained(sink.has, has0, reactor.input, i as int),
        decreases ins.len() - i,
    {
        let (res, count) = ins[i];
        proof {
            crate::resource::lemma_ord_bijective(res);
            assert(res.ord() == i);
            assert(count == reactor.input.amount(res));
            assert(sink.has.amount(res) == has0.amount(res));
        }
        let ghost before = sink.has;
        if count != 0 {
            let _ = sink.has.dec_by(res, count);
        }
        proof {
            assert(sink.has.amount(res) == before.amount(res) - count);
            assert(sink.has.limit(res) == before.limit(res));
            assert(forall|r: Resource| r != res ==> #[trigger] sink.has.amount(r) == before.amount(r)
                && sink.has.limit(r) == before.limit(r));
            lemma_drain_step(sink.has, before, has0, reactor.input, res, i as int);
            assert(drained(sink.has, has0, reactor.input, i + 1));
        }
        i += 1;
    }
    let label = String::from_str("Reaction");
    proof {
        reveal_strlit("Reaction");
    }
    progress.start(reactor.delay, label);
}

/// `rand::random_range(0..n)`: a number below `n`, drawn by the thread's
/// generator; which one is left to chance.
#[verifier::external_body]
fn random_below(n: usize) -> (i: usize)
    requires
        n > 0,
    ensures
        i < n,
{
    rand::random_range(0..n)
}

/// How far from a reactor its waste flies.
pub const WASTE_RANGE: i32 = 5;

/// Where each of `count` units of waste from a reactor at `center` flies: a
/// cell picked at random, for each unit, from the ring of cells
/// `WASTE_RANGE` away.
pub fn waste_targets(center: Coord, count: usize) -> (v: Vec<Coord>)
    requires
        coord_ok(center),
    ensures
        v@.len() == count,
        forall|i: int| 0 <= i < count ==> hex_distance(center, #[trigger] v@[i]) == WASTE_RANGE,
{
    let ring = center.ring(WASTE_RANGE, Direction::XY);
    let mut v: Vec<Coord> = Vec::new();
    let mut i: usize = 0;
    while i < count
        invariant
            i <= count,
            v@.len() == i,
            ring@.len() == 6 * WASTE_RANGE,
            forall|c: Coord| ring@.contains(c) <==> hex_distance(center, c) == WASTE_RANGE,
            forall|j: int| 0 <= j < i ==> hex_distance(center, #[trigger] v@[j]) == WASTE_RANGE,
        decreases count - i,
    {
        let ix = random_below(ring.len());
        let c = ring[ix];
        assert(ring@.contains(c));
        v.push(c);
        i += 1;
    }
    v
}


/// Work just started and then moved on by at least its (positive) length is
/// finished; finished work moves on no further.
pub proof fn law_started_work_finishes(p1: Progress, p2: Progress, p3: Progress, inc: Nanos, more: Nanos)
    requires
        p1.made matches Some(a) && a.at == 0 && 0 < a.target <= inc,
        advanced(p1, p2, inc),
        advanced(p2, p3, more),
    ensures
        p2.made matches Some(b) && finished(b.at, b.target),
        p3.made matches Some(c) && p2.made matches Some(b) && c.at == b.at,
{
}

} // verus!
