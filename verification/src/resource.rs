//! Resources, the pools that hold them, and the rules by which sinks pull
//! resources from sources.

use vstd::prelude::*;

use std::collections::HashMap;

use crate::error::{Error, Result};
use crate::{Entity, Nanos};

verus! {

/// The kinds of resource that flow through the network.
#[derive(Debug, Clone, Copy, PartialEq, Eq, Hash, Structural)]
pub enum Resource {
    H2,
    O2,
    H2O,
    C,
    CO2,
    CH4,
}

/// The number of kinds of resource.
pub const RESOURCE_COUNT: usize = 6;

/// The capacity of every resource in a fresh pool.
pub const DEFAULT_CAP: usize = 6;

impl Resource {
    /// The position of a resource in the fixed order H2, O2, H2O, C, CO2, CH4.
    pub open spec fn ord(self) -> int {
        match self {
            Resource::H2 => 0,
            Resource::O2 => 1,
            Resource::H2O => 2,
            Resource::C => 3,
            Resource::CO2 => 4,
            Resource::CH4 => 5,
        }
    }

    /// The resource at position `i` of the fixed order.
    pub open spec fn at_ord(i: int) -> Resource {
        if i == 0 {
            Resource::H2
        } else if i == 1 {
            Resource::O2
        } else if i == 2 {
            Resource::H2O
        } else if i == 3 {
            Resource::C
        } else if i == 4 {
            Resource::CO2
        } else {
            Resource::CH4
        }
    }

    pub fn index(self) -> (i: usize)
        ensures
            i == self.ord(),
            i < RESOURCE_COUNT,
    {
        match self {
            Resource::H2 => 0,
            Resource::O2 => 1,
            Resource::H2O => 2,
            Resource::C => 3,
            Resource::CO2 => 4,
            Resource::CH4 => 5,
        }
    }

    pub fn from_index(i: usize) -> (r: Resource)
        requires
            i < RESOURCE_COUNT,
        ensures
            r.ord() == i,
            r == Resource::at_ord(i as int),
    {
        if i == 0 {
            Resource::H2
        } else if i == 1 {
            Resource::O2
        } else if i == 2 {
            Resource::H2O
        } else if i == 3 {
            Resource::C
        } else if i == 4 {
            Resource::CO2
        } else {
            Resource::CH4
        }
    }

    /// Every resource, in the fixed order.
    pub fn all() -> (v: Vec<Resource>)
        ensures
            v@ == seq![
                Resource::H2,
                Resource::O2,
                Resource::H2O,
                Resource::C,
                Resource::CO2,
                Resource::CH4,
            ],
    {
        vec![
            Resource::H2,
            Resource::O2,
            Resource::H2O,
            Resource::C,
            Resource::CO2,
            Resource::CH4,
        ]
    }

    /// The name a resource is shown by.
    pub fn name(self) -> (s: &'static str)
        ensures
            s@ == resource_name(self),
    {
        match self {
            Resource::H2 => "H2",
            Resource::O2 => "O2",
            Resource::H2O => "H2O",
            Resource::C => "C",
            Resource::CO2 => "CO2",
            Resource::CH4 => "CH4",
        }
    }
}

pub open spec fn resource_name(r: Resource) -> Seq<char> {
    match r {
        Resource::H2 => "H2"@,
        Resource::O2 => "O2"@,
        Resource::H2O => "H2O"@,
        Resource::C => "C"@,
        Resource::CO2 => "CO2"@,
        Resource::CH4 => "CH4"@,
    }
}

/// The count given to `r` by the last entry for it, if any.
pub open spec fn last_value(entries: Seq<(Resource, usize)>, r: Resource) -> Option<usize>
    decreases entries.len(),
{
    if entries.len() == 0 {
        None
    } else if entries.last().0 == r {
        Some(entries.last().1)
    } else {
        last_value(entries.drop_last(), r)
    }
}

/// Taking one more entry: the new entry decides its own resource.
pub proof fn lemma_last_value_step(entries: Seq<(Resource, usize)>, i: int, r: Resource)
    requires
        0 <= i < entries.len(),
    ensures
        last_value(entries.take(i + 1), r) == if entries[i].0 == r {
            Some(entries[i].1)
        } else {
            last_value(entries.take(i), r)
        },
{
    assert(entries.take(i + 1).drop_last() =~= entries.take(i));
    assert(entries.take(i + 1).last() == entries[i]);
}

pub proof fn lemma_ord_bijective(r: Resource)
    ensures
        0 <= r.ord() < RESOURCE_COUNT,
        Resource::at_ord(r.ord()) == r,
{
}

/// A bounded count of each resource.
#[derive(Debug, Clone, Copy)]
pub struct Pool {
    count: [usize; 6],
    cap: [usize; 6],
}

/// `p1` is `p0` with `n` more of `r`, cut down to the cap.
pub open spec fn added(p0: Pool, p1: Pool, r: Resource, n: int) -> bool {
    &&& p1.amount(r) == capped(p0.amount(r) + n, p0.limit(r) as int)
    &&& p1.limit(r) == p0.limit(r)
    &&& p1.same_except(p0, r)
}

/// `p1` is `p0` with `n` less of `r`.
pub open spec fn removed(p0: Pool, p1: Pool, r: Resource, n: int) -> bool {
    &&& p1.amount(r) == p0.amount(r) - n
    &&& p1.limit(r) == p0.limit(r)
    &&& p1.same_except(p0, r)
}

/// What `set` stores for a requested count: the count, cut down to the cap.
pub open spec fn capped(count: int, cap: int) -> int {
    if cap < count { cap } else { count }
}

/// What `set` reports for a requested count: the part above the cap, if any.
pub open spec fn overflow(count: int, cap: int) -> Option<usize> {
    if cap < count { Some((count - cap) as usize) } else { None }
}

impl Pool {
    /// How much of `r` the pool holds.
    pub closed spec fn amount(self, r: Resource) -> usize {
        self.count@[r.ord()]
    }

    /// How much of `r` the pool can hold.
    pub closed spec fn limit(self, r: Resource) -> usize {
        self.cap@[r.ord()]
    }

    /// `self` and `other` agree on every resource but `r`.
    pub open spec fn same_except(self, other: Pool, r: Resource) -> bool {
        forall|q: Resource|
            #![trigger self.amount(q)]
            #![trigger self.limit(q)]
            q != r ==> self.amount(q) == other.amount(q) && self.limit(q) == other.limit(q)
    }

    /// Amounts and caps agree on every resource.
    pub open spec fn same_as(self, other: Pool) -> bool {
        forall|q: Resource|
            #![trigger self.amount(q)]
            #![trigger self.limit(q)]
            self.amount(q) == other.amount(q) && self.limit(q) == other.limit(q)
    }

    pub fn new() -> (p: Pool)
        ensures
            forall|r: Resource| #![trigger p.amount(r)] #![trigger p.limit(r)] p.amount(r) == 0 && p.limit(r) == DEFAULT_CAP,
    {
        Pool { count: [0, 0, 0, 0, 0, 0], cap: [6, 6, 6, 6, 6, 6] }
    }

    pub fn get(&self, res: Resource) -> (n: usize)
        ensures
            n == self.amount(res),
    {
        self.count[res.index()]
    }

    pub fn cap(&self, res: Resource) -> (n: usize)
        ensures
            n == self.limit(res),
    {
        self.cap[res.index()]
    }

    fn do_cap(&self, res: Resource, count: usize) -> (out: (usize, Option<usize>))
        ensures
            out.0 == capped(count as int, self.limit(res) as int),
            out.1 == overflow(count as int, self.limit(res) as int),
    {
        let c = self.cap[res.index()];
        if c < count {
            (c, Some(count - c))
        } else {
            (count, None)
        }
    }

    /// Sets the count of `res`, cut down to its cap; returns the part that did
    /// not fit.
    pub fn set(&mut self, res: Resource, count: usize) -> (over: Option<usize>)
        ensures
            final(self).amount(res) == capped(count as int, old(self).limit(res) as int),
            final(self).limit(res) == old(self).limit(res),
            final(self).same_except(*old(self), res),
            over == overflow(count as int, old(self).limit(res) as int),
    {
        let (c, o) = self.do_cap(res, count);
        let i = res.index();
        self.count[i] = c;
        o
    }

    pub fn inc(&mut self, res: Resource) -> (over: Option<usize>)
        requires
            old(self).amount(res) < usize::MAX,
        ensures
            final(self).amount(res) == capped(
                old(self).amount(res) + 1,
                old(self).limit(res) as int,
            ),
            final(self).limit(res) == old(self).limit(res),
            final(self).same_except(*old(self), res),
            over == overflow(old(self).amount(res) + 1, old(self).limit(res) as int),
    {
        self.inc_by(res, 1)
    }

    pub fn inc_by(&mut self, res: Resource, count: usize) -> (over: Option<usize>)
        requires
            old(self).amount(res) + count <= usize::MAX,
        ensures
            added(*old(self), *final(self), res, count as int),
            over == overflow(old(self).amount(res) + count, old(self).limit(res) as int),
    {
        let new = self.get(res) + count;
        self.set(res, new)
    }

    pub fn dec(&mut self, res: Resource) -> (r: Result<()>)
        ensures
            r is Ok <==> old(self).amount(res) >= 1,
            r is Err ==> r == Err::<(), Error>(Error::PoolUnderflow) && *final(self) == *old(self),
            r is Ok ==> final(self).amount(res) == old(self).amount(res) - 1
                && final(self).limit(res) == old(self).limit(res) && final(self).same_except(
                *old(self),
                res,
            ),
    {
        self.dec_by(res, 1)
    }

    pub fn dec_by(&mut self, res: Resource, count: usize) -> (r: Result<()>)
        ensures
            r is Ok <==> old(self).amount(res) >= count,
            r is Err ==> r == Err::<(), Error>(Error::PoolUnderflow) && *final(self) == *old(self),
            r is Ok ==> removed(*old(self), *final(self), res, count as int),
    {
        let i = res.index();
        if self.count[i] >= count {
            self.count[i] = self.count[i] - count;
            return Ok(());
        }
        Err(Error::PoolUnderflow)
    }

    /// A fresh pool with the counts of `entries` set in order (later entries
    /// for a resource replace earlier ones; each is cut down to the cap).
    pub fn from(entries: Vec<(Resource, usize)>) -> (p: Pool)
        ensures
            forall|r: Resource|
                #![trigger p.amount(r)]
                #![trigger p.limit(r)]
                p.amount(r) == match last_value(entries@, r) {
                    Some(n) => capped(n as int, DEFAULT_CAP as int),
                    None => 0,
                } && p.limit(r) == DEFAULT_CAP,
    {
        let mut p = Pool::new();
        p.set_all(&entries);
        p
    }

    /// A fresh pool whose caps are set from `caps`, then whose counts are set
    /// from `counts`, each list in order.
    pub fn from_cap(counts: Vec<(Resource, usize)>, caps: Vec<(Resource, usize)>) -> (p: Pool)
        ensures
            forall|r: Resource|
                #![trigger p.limit(r)]
                p.limit(r) == match last_value(caps@, r) {
                    Some(c) => c,
                    None => DEFAULT_CAP,
                },
            forall|r: Resource|
                #![trigger p.amount(r)]
                p.amount(r) == match last_value(counts@, r) {
                    Some(n) => capped(n as int, p.limit(r) as int),
                    None => 0,
                },
    {
        let mut p = Pool::new();
        let mut i: usize = 0;
        while i < caps.len()
            invariant
                i <= caps.len(),
                forall|r: Resource|
                    #![trigger p.limit(r)]
                    #![trigger p.amount(r)]
                    p.amount(r) == 0 && p.limit(r) == match last_value(caps@.take(i as int), r) {
                        Some(c) => c,
                        None => DEFAULT_CAP,
                    },
            decreases caps.len() - i,
        {
            let (res, c) = caps[i];
            let ghost p1 = p;
            p.set_cap(res, c);
            proof {
                assert(caps@.take(i + 1).drop_last() =~= caps@.take(i as int));
                assert forall|r: Resource| #![trigger p.limit(r)]
                    p.amount(r) == 0 && p.limit(r) == match last_value(caps@.take(i + 1), r) {
                        Some(c) => c,
                        None => DEFAULT_CAP,
                    } by {
                    lemma_last_value_step(caps@, i as int, r);
                    assert(p1.amount(r) == 0);
                    if r != res {
                        assert(p.limit(r) == p1.limit(r));
                        assert(p.amount(r) == p1.amount(r));
                    }
                }
            }
            i += 1;
        }
        proof {
            assert(caps@.take(caps@.len() as int) =~= caps@);
        }
        p.set_all(&counts);
        p
    }

    /// Sets the counts of `entries` in order.
    fn set_all(&mut self, entries: &Vec<(Resource, usize)>)
        ensures
            forall|r: Resource|
                #![trigger final(self).amount(r)]
                #![trigger final(self).limit(r)]
                final(self).amount(r) == match last_value(entries@, r) {
                    Some(n) => capped(n as int, old(self).limit(r) as int),
                    None => old(self).amount(r) as int,
                } && final(self).limit(r) == old(self).limit(r),
    {
        let ghost p0 = *self;
        let mut i: usize = 0;
        while i < entries.len()
            invariant
                i <= entries.len(),
                forall|r: Resource|
                    #![trigger self.amount(r)]
                    #![trigger self.limit(r)]
                    self.amount(r) == match last_value(entries@.take(i as int), r) {
                        Some(n) => capped(n as int, p0.limit(r) as int),
                        None => p0.amount(r) as int,
                    } && self.limit(r) == p0.limit(r),
            decreases entries.len() - i,
        {
            let (res, c) = entries[i];
            let ghost p1 = *self;
            self.set(res, c);
            proof {
                assert(entries@.take(i + 1).drop_last() =~= entries@.take(i as int));
                assert forall|r: Resource| #![trigger self.amount(r)]
                    self.amount(r) == match last_value(entries@.take(i + 1), r) {
                        Some(n) => capped(n as int, p0.limit(r) as int),
                        None => p0.amount(r) as int,
                    } && self.limit(r) == p0.limit(r) by {
                    lemma_last_value_step(entries@, i as int, r);
                    assert(p1.limit(r) == p0.limit(r));
                    if r != res {
                        assert(self.limit(r) == p1.limit(r));
                        assert(self.amount(r) == p1.amount(r));
                    }
                }
            }
            i += 1;
        }
        proof {
            assert(entries@.take(entries@.len() as int) =~= entries@);
        }
    }

    /// Each resource with its count, in the fixed order of resources.
    pub fn iter(&self) -> (v: Vec<(Resource, usize)>)
        ensures
            v@.len() == RESOURCE_COUNT,
            forall|i: int|
                #![trigger v@[i]]
                0 <= i < RESOURCE_COUNT ==> v@[i] == (
                    Resource::at_ord(i),
                    self.amount(Resource::at_ord(i)),
                ),
    {
        let mut v: Vec<(Resource, usize)> = Vec::new();
        let mut i: usize = 0;
        while i < RESOURCE_COUNT
            invariant
                i <= RESOURCE_COUNT,
                v@.len() == i,
                forall|j: int|
                    #![trigger v@[j]]
                    0 <= j < i ==> v@[j] == (
                        Resource::at_ord(j),
                        self.amount(Resource::at_ord(j)),
                    ),
            decreases RESOURCE_COUNT - i,
        {
            let r = Resource::from_index(i);
            v.push((r, self.get(r)));
            i += 1;
        }
        v
    }

    /// Whether every resource has a positive count.
    pub fn is_empty(&self) -> (b: bool)
        ensures
            b <==> forall|r: Resource| #[trigger] self.amount(r) > 0,
    {
        let mut i: usize = 0;
        while i < RESOURCE_COUNT
            invariant
                i <= RESOURCE_COUNT,
                forall|r: Resource| r.ord() < i ==> #[trigger] self.amount(r) > 0,
            decreases RESOURCE_COUNT - i,
        {
            let r = Resource::from_index(i);
            if self.get(r) == 0 {
                return false;
            }
            proof {
                assert forall|q: Resource| q.ord() == i implies q == r by {
                    lemma_ord_bijective(q);
                }
            }
            i += 1;
        }
        true
    }

    pub fn set_cap(&mut self, res: Resource, cap: usize)
        ensures
            final(self).limit(res) == cap,
            final(self).amount(res) == old(self).amount(res),
            final(self).same_except(*old(self), res),
    {
        let i = res.index();
        self.cap[i] = cap;
    }
}


/// The decimal digit `d`.
pub open spec fn digit_char(d: int) -> char {
    (48 + d) as char
}

/// The decimal numeral of `n`, without leading zeros.
pub open spec fn decimal(n: nat) -> Seq<char>
    decreases n,
{
    if n < 10 {
        seq![digit_char(n as int)]
    } else {
        decimal(n / 10).push(digit_char((n % 10) as int))
    }
}

/// `usize::to_string`: formats `n` in decimal, as `Display` for integers
/// does, without sign or leading zeros.
#[verifier::external_body]
fn decimal_string(n: usize) -> (s: String)
    ensures
        s@ == decimal(n as nat),
{
    n.to_string()
}

/// `String::push_str`: appends `t`.
#[verifier::external_body]
fn push_str(s: &mut String, t: &str)
    ensures
        final(s)@ == old(s)@ + t@,
{
    s.push_str(t)
}

/// How `count` units of `r` are written: the name alone for one unit, else
/// the count before it.
pub open spec fn part_text(r: Resource, count: nat) -> Seq<char> {
    if count == 1 {
        resource_name(r)
    } else {
        decimal(count) + resource_name(r)
    }
}

/// The written parts of the first `n` resources of `p`, skipping those it
/// holds none of.
pub open spec fn pool_parts(p: Pool, n: int) -> Seq<Seq<char>>
    decreases n,
{
    if n <= 0 {
        Seq::empty()
    } else {
        let rest = pool_parts(p, n - 1);
        let r = Resource::at_ord(n - 1);
        if p.amount(r) == 0 {
            rest
        } else {
            rest.push(part_text(r, p.amount(r) as nat))
        }
    }
}

/// The parts, joined by `+`.
pub open spec fn join_plus(parts: Seq<Seq<char>>) -> Seq<char>
    decreases parts.len(),
{
    if parts.len() == 0 {
        Seq::empty()
    } else if parts.len() == 1 {
        parts[0]
    } else {
        join_plus(parts.drop_last()) + seq!['+'] + parts.last()
    }
}

impl Pool {
    /// The pool written out, such as `2H2+O2`: for each resource it holds, in
    /// the fixed order, the count (left out when one) and the name, joined by
    /// `+`.
    pub fn str(&self) -> (s: String)
        ensures
            s@ == join_plus(pool_parts(*self, RESOURCE_COUNT as int)),
    {
        let mut out = String::new();
        let mut any = false;
        let mut i: usize = 0;
        while i < RESOURCE_COUNT
            invariant
                i <= RESOURCE_COUNT,
                out@ == join_plus(pool_parts(*self, i as int)),
                any == (pool_parts(*self, i as int).len() > 0),
            decreases RESOURCE_COUNT - i,
        {
            let r = Resource::from_index(i);
            let c = self.get(r);
            let ghost before = pool_parts(*self, i as int);
            proof {
                assert(pool_parts(*self, i + 1) == if c == 0 {
                    before
                } else {
                    before.push(part_text(r, c as nat))
                });
            }
            if c != 0 {
                let ghost out0 = out@;
                if any {
                    push_str(&mut out, "+");
                    proof {
                        reveal_strlit("+");
                    }
                }
                if c != 1 {
                    let num = decimal_string(c);
                    push_str(&mut out, num.as_str());
                }
                push_str(&mut out, r.name());
                any = true;
                proof {
                    let np = before.push(part_text(r, c as nat));
                    assert(np.drop_last() =~= before);
                    if before.len() > 0 {
                        assert(out@ =~= out0 + seq!['+'] + part_text(r, c as nat));
                    } else {
                        assert(out@ =~= part_text(r, c as nat));
                        assert(join_plus(np) == np[0]);
                    }
                }
            }
            i += 1;
        }
        out
    }
}

/// A node's intake: what it wants, what it has, and what is on its way.
#[derive(Debug, Clone, Copy)]
pub struct Sink {
    pub want: Pool,
    pub has: Pool,
    pub in_transit: Pool,
}

impl Sink {
    pub fn new() -> (s: Sink)
        ensures
            forall|r: Resource| #![trigger s.want.amount(r)] s.want.amount(r) == 0 && s.want.limit(r) == DEFAULT_CAP,
            forall|r: Resource| #![trigger s.has.amount(r)] s.has.amount(r) == 0 && s.has.limit(r) == DEFAULT_CAP,
            forall|r: Resource|
                #![trigger s.in_transit.amount(r)] s.in_transit.amount(r) == 0 && s.in_transit.limit(r) == DEFAULT_CAP,
    {
        let want = Pool::new();
        let has = Pool::new();
        let in_transit = Pool::new();
        Sink { want, has, in_transit }
    }
}

/// How a sink stands: it has all it wants, or what it lacks is on its way, or
/// it lacks some resource even counting what is on its way.
#[derive(Debug, Clone, Copy, PartialEq, Eq, Structural)]
pub enum SinkState {
    Green,
    Yellow,
    Red,
}

/// The sink lacks `r` even counting what is on its way.
pub open spec fn short_of(s: Sink, r: Resource) -> bool {
    s.has.amount(r) + s.in_transit.amount(r) < s.want.amount(r)
}

/// The sink has less of `r` than it wants.
pub open spec fn waits_for(s: Sink, r: Resource) -> bool {
    s.has.amount(r) < s.want.amount(r)
}

/// How the sink stands: red when it is short of some resource, else yellow
/// when it waits for some resource, else green.
pub open spec fn sink_state_spec(s: Sink) -> SinkState {
    if exists|r: Resource| #[trigger] short_of(s, r) {
        SinkState::Red
    } else if exists|r: Resource| #[trigger] waits_for(s, r) {
        SinkState::Yellow
    } else {
        SinkState::Green
    }
}

/// How the resources of `rs` before `i` leave the sink's state.
spec fn state_upto(s: Sink, rs: Seq<Resource>, i: int) -> SinkState {
    if exists|j: int| 0 <= j < i && #[trigger] short_of(s, rs[j]) {
        SinkState::Red
    } else if exists|j: int| 0 <= j < i && #[trigger] waits_for(s, rs[j]) {
        SinkState::Yellow
    } else {
        SinkState::Green
    }
}

/// How `s` stands, as `sink_state_spec` says.
pub fn sink_state(s: &Sink) -> (st: SinkState)
    ensures
        st == sink_state_spec(*s),
{
    let all = Resource::all();
    let mut st = SinkState::Green;
    let mut i: usize = 0;
    while i < all.len()
        invariant
            all@ == seq![
                Resource::H2,
                Resource::O2,
                Resource::H2O,
                Resource::C,
                Resource::CO2,
                Resource::CH4,
            ],
            i <= all.len(),
            st == state_upto(*s, all@, i as int),
        decreases all.len() - i,
    {
        let r = all[i];
        let want = s.want.get(r);
        let has = s.has.get(r);
        if has < want {
            let coming = s.in_transit.get(r);
            if coming >= want - has {
                if st == SinkState::Green {
                    st = SinkState::Yellow;
                }
            } else {
                st = SinkState::Red;
            }
        }
        proof {
            let rs = all@;
            let k = i as int;
            if short_of(*s, rs[k]) {
                assert(0 <= k < k + 1 && short_of(*s, rs[k]));
            }
            if waits_for(*s, rs[k]) {
                assert(0 <= k < k + 1 && waits_for(*s, rs[k]));
            }
            if exists|j: int| 0 <= j < k + 1 && #[trigger] short_of(*s, rs[j]) {
                let j = choose|j: int| 0 <= j < k + 1 && #[trigger] short_of(*s, rs[j]);
                if j < k {
                    assert(0 <= j < k && short_of(*s, rs[j]));
                }
            }
            if exists|j: int| 0 <= j < k + 1 && #[trigger] waits_for(*s, rs[j]) {
                let j = choose|j: int| 0 <= j < k + 1 && #[trigger] waits_for(*s, rs[j]);
                if j < k {
                    assert(0 <= j < k && waits_for(*s, rs[j]));
                }
            }
        }
        i += 1;
    }
    proof {
        let rs = all@;
        if exists|r: Resource| #[trigger] short_of(*s, r) {
            let r = choose|r: Resource| #[trigger] short_of(*s, r);
            let j = r.ord() as int;
            assert(rs[j] == r);
            assert(0 <= j < 6 && short_of(*s, rs[j]));
        }
        if exists|r: Resource| #[trigger] waits_for(*s, r) {
            let r = choose|r: Resource| #[trigger] waits_for(*s, r);
            let j = r.ord() as int;
            assert(rs[j] == r);
            assert(0 <= j < 6 && waits_for(*s, rs[j]));
        }
    }
    st
}

/// How much of `r` a sink still lacks once what it has and what is on its way
/// are counted.
pub open spec fn need(sink: Sink, r: Resource) -> int {
    sink.want.amount(r) - (sink.has.amount(r) + sink.in_transit.amount(r))
}

/// A source holding `has` can send `r` to `sink`.
pub open spec fn pullable(sink: Sink, has: Pool, r: Resource) -> bool {
    need(sink, r) > 0 && has.amount(r) > 0
}

/// `choice` is the resource a sink takes from a source holding `has`: of the
/// resources it can take, the one it lacks most, the earliest of those on a tie;
/// `None` when it can take none.
pub open spec fn is_pull_choice(sink: Sink, has: Pool, choice: Option<Resource>) -> bool {
    match choice {
        None => forall|q: Resource| !#[trigger] pullable(sink, has, q),
        Some(r) => {
            &&& pullable(sink, has, r)
            &&& forall|q: Resource| #[trigger]
                pullable(sink, has, q) ==> need(sink, q) <= need(sink, r)
            &&& forall|q: Resource|
                #[trigger] pullable(sink, has, q) && q.ord() < r.ord() ==> need(sink, q) < need(
                    sink,
                    r,
                )
        },
    }
}

/// The need of `sink` for `r`, or 0 when it lacks nothing.
fn need_of(sink: &Sink, r: Resource) -> (n: usize)
    ensures
        n > 0 <==> need(*sink, r) > 0,
        n > 0 ==> n == need(*sink, r),
{
    let want = sink.want.get(r);
    let has = sink.has.get(r);
    let transit = sink.in_transit.get(r);
    if has >= want {
        0
    } else if transit >= want - has {
        0
    } else {
        want - has - transit
    }
}

/// Whether a source holding `has` can send `sink` anything it lacks.
pub fn serves(has: &Pool, sink: &Sink) -> (b: bool)
    ensures
        b <==> exists|r: Resource| #[trigger] pullable(*sink, *has, r),
{
    let all = Resource::all();
    let mut i: usize = 0;
    while i < all.len()
        invariant
            i <= all.len(),
            all@ == seq![
                Resource::H2,
                Resource::O2,
                Resource::H2O,
                Resource::C,
                Resource::CO2,
                Resource::CH4,
            ],
            forall|j: int| 0 <= j < i ==> !pullable(*sink, *has, #[trigger] all@[j]),
        decreases all.len() - i,
    {
        let r = all[i];
        if has.get(r) > 0 && need_of(sink, r) > 0 {
            assert(pullable(*sink, *has, r));
            return true;
        }
        i += 1;
    }
    proof {
        assert forall|r: Resource| !#[trigger] pullable(*sink, *has, r) by {
            assert(all@[r.ord()] == r);
        }
    }
    false
}

/// The resource `sink` takes from a source holding `has`: the one it lacks most.
pub fn pull_choice(sink: &Sink, has: &Pool) -> (choice: Option<Resource>)
    ensures
        is_pull_choice(*sink, *has, choice),
{
    let mut best: Option<Resource> = None;
    let mut best_need: usize = 0;
    let mut i: usize = 0;
    while i < RESOURCE_COUNT
        invariant
            i <= RESOURCE_COUNT,
            match best {
                None => forall|q: Resource|
                    q.ord() < i ==> !#[trigger] pullable(*sink, *has, q),
                Some(r) => {
                    &&& r.ord() < i
                    &&& pullable(*sink, *has, r)
                    &&& best_need == need(*sink, r)
                    &&& forall|q: Resource|
                        #[trigger] pullable(*sink, *has, q) && q.ord() < i ==> need(*sink, q)
                            <= need(*sink, r)
                    &&& forall|q: Resource|
                        #[trigger] pullable(*sink, *has, q) && q.ord() < r.ord() ==> need(
                            *sink,
                            q,
                        ) < need(*sink, r)
                },
            },
        decreases RESOURCE_COUNT - i,
    {
        let r = Resource::from_index(i);
        let n = need_of(sink, r);
        if n > 0 && has.get(r) > 0 {
            match best {
                None => {
                    best = Some(r);
                    best_need = n;
                },
                Some(_) => {
                    if n > best_need {
                        best = Some(r);
                        best_need = n;
                    }
                },
            }
        }
        proof {
            assert forall|q: Resource| q.ord() < i + 1 && q.ord() != i implies q.ord() < i by {}
            assert forall|q: Resource| q.ord() == i implies q == r by {
                lemma_ord_bijective(q);
            }
        }
        i += 1;
    }
    best
}

/// The time a source waits between two sends to the same sink.
pub const SEND_COOLDOWN: Nanos = 500_000_000;

/// A provider of resources, remembering when it last sent to each sink.
#[derive(Debug)]
pub struct Source {
    pub has: Pool,
    pub last_send: HashMap<Entity, Nanos>,
}

/// Whether a send at `last` still holds back a send at `now`, and for how long
/// after `now`.
pub open spec fn cooldown_spec(last: Option<Nanos>, now: Nanos) -> (bool, u64) {
    match last {
        None => (false, 0),
        Some(t) => {
            let since: int = if now >= t { now - t } else { 0 };
            if since < SEND_COOLDOWN {
                (true, (SEND_COOLDOWN - since) as u64)
            } else {
                (false, 0)
            }
        },
    }
}

impl Source {
    /// When the source last sent to each sink.
    pub open spec fn sent(&self) -> Map<Entity, Nanos> {
        self.last_send@
    }

    pub fn new(has: Pool) -> (s: Source)
        ensures
            s.has == has,
            s.sent() == Map::<Entity, Nanos>::empty(),
    {
        Source { has, last_send: HashMap::new() }
    }

    /// When the source last sent to `sink`.
    pub fn last_send(&self, sink: Entity) -> (t: Option<Nanos>)
        ensures
            t == (if self.sent().contains_key(sink) {
                Some(self.sent()[sink])
            } else {
                None
            }),
    {
        broadcast use vstd::std_specs::hash::group_hash_axioms;

        match self.last_send.get(&sink) {
            Some(t) => Some(*t),
            None => None,
        }
    }

    /// Whether the source is still cooling down from its last send to `sink`,
    /// and how much time is left of the cooldown.
    pub fn cooldown(&self, sink: Entity, now: Nanos) -> (r: (bool, u64))
        ensures
            r == cooldown_spec(
                if self.sent().contains_key(sink) {
                    Some(self.sent()[sink])
                } else {
                    None
                },
                now,
            ),
    {
        match self.last_send(sink) {
            None => (false, 0),
            Some(t) => {
                let since = if now >= t {
                    now - t
                } else {
                    0
                };
                if since < SEND_COOLDOWN {
                    (true, SEND_COOLDOWN - since)
                } else {
                    (false, 0)
                }
            },
        }
    }
}

/// The effect of one pull of `sink` (the node `sink_ent`) from a source, the
/// two going from `src0` and `snk0` to `src1` and `snk1` at time `now`: `res`
/// is the resource the sink lacks most of those the source has; one unit of it
/// leaves the source and is counted as on its way, and the send is stamped;
/// nothing changes when the source has nothing the sink lacks.
pub open spec fn pulled(
    src0: Source,
    src1: Source,
    snk0: Sink,
    snk1: Sink,
    sink_ent: Entity,
    now: Nanos,
    res: Option<Resource>,
) -> bool {
    &&& is_pull_choice(snk0, src0.has, res)
    &&& res is None ==> src1.has == src0.has && src1.sent() == src0.sent() && snk1 == snk0
    &&& res matches Some(r) ==> {
        &&& src1.has.amount(r) == src0.has.amount(r) - 1
        &&& src1.has.limit(r) == src0.has.limit(r)
        &&& src1.has.same_except(src0.has, r)
        &&& src1.sent() == src0.sent().insert(sink_ent, now)
        &&& snk1.in_transit.amount(r) == capped(
            snk0.in_transit.amount(r) + 1,
            snk0.in_transit.limit(r) as int,
        )
        &&& snk1.in_transit.limit(r) == snk0.in_transit.limit(r)
        &&& snk1.in_transit.same_except(snk0.in_transit, r)
        &&& snk1.want == snk0.want
        &&& snk1.has == snk0.has
    }
}

/// One unit moves from `source` towards `sink`, as `pulled` says.
pub fn pull(source: &mut Source, sink: &mut Sink, sink_ent: Entity, now: Nanos) -> (res: Option<
    Resource,
>)
    ensures
        pulled(*old(source), *final(source), *old(sink), *final(sink), sink_ent, now, res),
{
    broadcast use vstd::std_specs::hash::group_hash_axioms;

    let choice = pull_choice(sink, &source.has);
    match choice {
        None => None,
        Some(r) => {
            source.last_send.insert(sink_ent, now);
            let _ = source.has.dec(r);
            let _ = sink.in_transit.inc(r);
            Some(r)
        },
    }
}

/// The arrival of a packet of `res` takes `snk0` to `snk1`: one unit stops
/// being on its way and joins what the sink has (up to the cap).
pub open spec fn received(snk0: Sink, snk1: Sink, res: Resource) -> bool {
    &&& removed(snk0.in_transit, snk1.in_transit, res, 1)
    &&& added(snk0.has, snk1.has, res, 1)
    &&& snk1.want == snk0.want
}

/// A packet of `res` arrives at `sink`, as `received` says.  Fails, changing
/// nothing, when no such packet was on its way.
pub fn receive(sink: &mut Sink, res: Resource) -> (r: Result<()>)
    requires
        old(sink).has.amount(res) < usize::MAX,
    ensures
        r is Ok <==> old(sink).in_transit.amount(res) >= 1,
        r is Err ==> r == Err::<(), Error>(Error::PoolUnderflow) && *final(sink) == *old(sink),
        r is Ok ==> received(*old(sink), *final(sink), res),
{
    match sink.in_transit.dec(res) {
        Err(e) => Err(e),
        Ok(()) => {
            let _ = sink.has.inc(res);
            Ok(())
        },
    }
}


/// What a store asks for of `r` once it holds `pending`: the room left under
/// its cap.
pub open spec fn room(cap: int, pending: int) -> int {
    if cap > pending { cap - pending } else { 0 }
}

/// A store empties its intake into its stock of `r`, then asks its intake for
/// exactly the room left in the stock.
pub open spec fn stored_one(
    stock: Pool,
    sink: Sink,
    stock2: Pool,
    sink2: Sink,
    r: Resource,
) -> bool {
    let moved = sink.has.amount(r);
    let stocked = stock.amount(r) + moved;
    let asked = room(stock.limit(r) as int, stocked);
    &&& stock2.amount(r) == stocked
    &&& stock2.limit(r) == stock.limit(r)
    &&& sink2.has.amount(r) == 0
    &&& sink2.has.limit(r) == sink.has.limit(r)
    &&& sink2.want.amount(r) == (if asked == sink.want.amount(r) {
        asked
    } else {
        capped(asked, sink.want.limit(r) as int)
    })
    &&& sink2.want.limit(r) == sink.want.limit(r)
}

/// A store whose intake holds more of some resource than its stock has room
/// for overflows.
pub open spec fn store_fits(stock: Pool, sink: Sink) -> bool {
    forall|r: Resource|
        #![trigger sink.has.amount(r)]
        sink.has.amount(r) > 0 ==> stock.amount(r) + sink.has.amount(r) <= stock.limit(r)
}

/// The store step for the single resource `res`.
fn store_one(stock: &mut Pool, sink: &mut Sink, res: Resource)
    requires
        old(sink).has.amount(res) > 0 ==> old(stock).amount(res) + old(sink).has.amount(res)
            <= old(stock).limit(res),
    ensures
        stored_one(*old(stock), *old(sink), *final(stock), *final(sink), res),
        final(stock).amount(res) == old(stock).amount(res) + old(sink).has.amount(res),
        final(sink).want.amount(res) > 0 ==> final(stock).amount(res) + final(sink).want.amount(res)
            <= final(stock).limit(res),
        final(stock).same_except(*old(stock), res),
        final(sink).has.same_except(old(sink).has, res),
        final(sink).want.same_except(old(sink).want, res),
        final(sink).in_transit == old(sink).in_transit,
{
    let has = sink.has.get(res);
    if has > 0 {
        sink.has.set(res, 0);
        let _ = stock.inc_by(res, has);
    }
    let pending = stock.get(res);
    let want = if stock.cap(res) > pending {
        stock.cap(res) - pending
    } else {
        0
    };
    if want != sink.want.get(res) {
        sink.want.set(res, want);
    }
}

/// A store moves everything its intake received into its stock and asks its
/// intake for the room left in the stock.
pub fn store(stock: &mut Pool, sink: &mut Sink)
    requires
        store_fits(*old(stock), *old(sink)),
    ensures
        forall|r: Resource|
            #![trigger final(stock).amount(r)]
            stored_one(*old(stock), *old(sink), *final(stock), *final(sink), r),
        forall|r: Resource|
            #![trigger final(sink).want.amount(r)]
            final(sink).want.amount(r) > 0 ==> final(stock).amount(r) + final(sink).want.amount(r)
                <= final(stock).limit(r),
        final(sink).in_transit == old(sink).in_transit,
{
    let ghost stock0 = *stock;
    let ghost sink0 = *sink;
    let mut i: usize = 0;
    while i < RESOURCE_COUNT
        invariant
            i <= RESOURCE_COUNT,
            store_fits(stock0, sink0),
            sink.in_transit == sink0.in_transit,
            forall|q: Resource|
                #![trigger stock.amount(q)]
                q.ord() < i ==> stored_one(stock0, sink0, *stock, *sink, q),
            forall|q: Resource|
                #![trigger stock.amount(q)]
                #![trigger sink.has.amount(q)]
                #![trigger sink.want.amount(q)]
                q.ord() >= i ==> stock.amount(q) == stock0.amount(q) && stock.limit(q)
                    == stock0.limit(q) && sink.has.amount(q) == sink0.has.amount(q)
                    && sink.has.limit(q) == sink0.has.limit(q) && sink.want.amount(q)
                    == sink0.want.amount(q) && sink.want.limit(q) == sink0.want.limit(q),
        decreases RESOURCE_COUNT - i,
    {
        let res = Resource::from_index(i);
        let ghost stock1 = *stock;
        let ghost sink1 = *sink;
        assert(sink.has.amount(res) == sink0.has.amount(res));
        store_one(stock, sink, res);
        proof {
            assert forall|q: Resource| q.ord() == i implies q == res by {
                lemma_ord_bijective(q);
            }
            assert forall|q: Resource| #![trigger stock.amount(q)]
                q.ord() < i + 1 implies stored_one(stock0, sink0, *stock, *sink, q) by {
                if q != res {
                    assert(stock.amount(q) == stock1.amount(q));
                    assert(sink.has.amount(q) == sink1.has.amount(q));
                    assert(sink.want.amount(q) == sink1.want.amount(q));
                }
            }
        }
        i += 1;
    }
}

/// A store step moves everything its intake received into the stock, and
/// its intake never asks for more than the room left in the stock: the
/// stock, counting what is on its way and what the intake still lacks, stays
/// within its cap.  When the intake's own cap allows, it asks for exactly
/// the room left, so that the stock ends full once all arrives.
pub proof fn law_store_asks_for_room(stock0: Pool, sink0: Sink, stock1: Pool, sink1: Sink, r: Resource)
    requires
        stored_one(stock0, sink0, stock1, sink1, r),
    ensures
        stock1.amount(r) == stock0.amount(r) + sink0.has.amount(r),
        stock1.limit(r) == stock0.limit(r),
        sink1.has.amount(r) == 0,
        sink1.want.amount(r) > 0 ==> stock1.amount(r) + sink1.want.amount(r) <= stock1.limit(r),
        need(sink1, r) > 0 ==> stock1.amount(r) + sink1.has.amount(r) + sink1.in_transit.amount(r) + need(
            sink1,
            r,
        ) <= stock1.limit(r),
        stock1.amount(r) <= stock1.limit(r) && stock1.limit(r) - stock1.amount(r) <= sink0.want.limit(r)
            ==> stock1.amount(r) + sink1.want.amount(r) == stock1.limit(r),
{
}

/// Adding `n` of a resource and then taking `n` away gives back the pool,
/// when the addition stayed under the cap.
pub proof fn law_add_then_remove(p0: Pool, p1: Pool, p2: Pool, r: Resource, n: int)
    requires
        added(p0, p1, r, n),
        removed(p1, p2, r, n),
        p0.amount(r) + n <= p0.limit(r),
    ensures
        p2.same_as(p0),
{
}

/// Taking `n` of a resource away and then adding `n` back gives back the
/// pool, when it held no more than its cap.
pub proof fn law_remove_then_add(p0: Pool, p1: Pool, p2: Pool, r: Resource, n: int)
    requires
        removed(p0, p1, r, n),
        added(p1, p2, r, n),
        p0.amount(r) <= p0.limit(r),
    ensures
        p2.same_as(p0),
{
}

/// A pull moves one unit and loses none: what the source holds of the pulled
/// resource plus what is on its way to the sink stays the same (while the
/// sink's count of what is on its way is under its cap), every other count
/// stays, and the sink still lacks no less than nothing of it.
pub proof fn law_pull_moves_one(
    src0: Source,
    src1: Source,
    snk0: Sink,
    snk1: Sink,
    sink_ent: Entity,
    now: Nanos,
    r: Resource,
)
    requires
        pulled(src0, src1, snk0, snk1, sink_ent, now, Some(r)),
        snk0.in_transit.amount(r) < snk0.in_transit.limit(r),
    ensures
        src1.has.amount(r) + snk1.in_transit.amount(r) == src0.has.amount(r) + snk0.in_transit.amount(r),
        need(snk1, r) == need(snk0, r) - 1,
        need(snk1, r) >= 0,
        forall|q: Resource| q != r ==> #[trigger] src1.has.amount(q) == src0.has.amount(q)
            && snk1.in_transit.amount(q) == snk0.in_transit.amount(q),
{
}

/// An arrival moves one unit and loses none: what is on its way plus what
/// the sink has stays the same, while what it has is under its cap.
pub proof fn law_receive_moves_one(snk0: Sink, snk1: Sink, r: Resource)
    requires
        received(snk0, snk1, r),
        snk0.has.amount(r) < snk0.has.limit(r),
    ensures
        snk1.in_transit.amount(r) + snk1.has.amount(r) == snk0.in_transit.amount(r) + snk0.has.amount(r),
        need(snk1, r) == need(snk0, r),
{
}


/// A sink pulls only until what it has and what is on its way cover what it
/// wants: once they do, for every resource, no source has anything it takes.
pub proof fn law_satisfied_sink_pulls_nothing(sink: Sink, has: Pool, choice: Option<Resource>)
    requires
        forall|r: Resource| #[trigger] need(sink, r) <= 0,
        is_pull_choice(sink, has, choice),
    ensures
        choice is None,
{
    if let Some(r) = choice {
        assert(need(sink, r) <= 0);
    }
}

} // verus!
