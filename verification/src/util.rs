//! Lookups in the tables of components that fail softly.

use std::collections::HashMap;

use vstd::prelude::*;

use crate::error::{Error, Result};
use crate::Entity;
use vstd::std_specs::iter::IteratorSpec;

verus! {

broadcast use vstd::std_specs::hash::group_hash_axioms;

/// The component `ent` has in `storage`, or `NoSuchComponent`.
pub fn try_get<T>(storage: &HashMap<Entity, T>, ent: Entity) -> (r: Result<&T>)
    ensures
        r is Ok <==> storage@.contains_key(ent),
        r matches Ok(v) ==> *v == storage@[ent],
        r is Err ==> r == Err::<&T, Error>(Error::NoSuchComponent),
{
    match storage.get(&ent) {
        Some(v) => Ok(v),
        None => Err(Error::NoSuchComponent),
    }
}

/// `s` is in increasing order.
pub open spec fn increasing(s: Seq<Entity>) -> bool {
    forall|i: int, j: int| 0 <= i < j < s.len() ==> s[i] < s[j]
}

/// The keys of `m` in increasing order: the order in which the entity store
/// walks the entities that have a component.
pub fn sorted_keys<V>(m: &HashMap<Entity, V>) -> (v: Vec<Entity>)
    ensures
        increasing(v@),
        v@.to_set() == m@.dom(),
        v@.no_duplicates(),
{
    let mut keys: Vec<Entity> = Vec::new();
    let ghost all = m.keys().remaining();
    for k in it: m.keys()
        invariant
            all == it.seq(),
            keys@.len() == it.index(),
            forall|i: int| #![trigger keys@[i]] 0 <= i < keys@.len() ==> keys@[i] == *all[i],
    {
        keys.push(*k);
    }
    proof {
        assert(keys@ =~= all.unref());
    }
    let mut out: Vec<Entity> = Vec::new();
    let mut i: usize = 0;
    while i < keys.len()
        invariant
            i <= keys.len(),
            keys@.no_duplicates(),
            increasing(out@),
            out@.to_set() == keys@.take(i as int).to_set(),
        decreases keys.len() - i,
    {
        let k = keys[i];
        let mut j: usize = 0;
        while j < out.len() && out[j] < k
            invariant
                j <= out.len(),
                forall|q: int| 0 <= q < j ==> out@[q] < k,
            decreases out.len() - j,
        {
            j += 1;
        }
        let ghost before = out@;
        proof {
            assert(!before.contains(k)) by {
                if before.contains(k) {
                    assert(keys@.take(i as int).to_set().contains(k));
                    let q = choose|q: int| 0 <= q < i && keys@.take(i as int)[q] == k;
                    assert(keys@[q] == keys@[i as int]);
                }
            }
        }
        out.insert(j, k);
        proof {
            assert(out@ == before.insert(j as int, k));
            assert forall|a: int, b: int| 0 <= a < b < out@.len() implies out@[a] < out@[b] by {
                if j < before.len() {
                    assert(before[j as int] >= k);
                    assert(before[j as int] != k);
                }
            }
            assert(keys@.take(i + 1) =~= keys@.take(i as int).push(k));
            assert(out@.to_set() =~= keys@.take(i + 1).to_set()) by {
                assert forall|x: Entity| out@.to_set().contains(x) <==> keys@.take(i + 1).to_set().contains(x) by {
                    lemma_push_contains(keys@.take(i as int), k, x);
                    assert(out@.to_set().contains(x) == out@.contains(x));
                    assert(before.to_set().contains(x) == before.contains(x));
                    assert(keys@.take(i + 1).to_set().contains(x) == keys@.take(i + 1).contains(x));
                    assert(keys@.take(i as int).to_set().contains(x) == keys@.take(i as int).contains(x));
                    if out@.contains(x) {
                        let q = choose|q: int| 0 <= q < out@.len() && out@[q] == x;
                        if q < j {
                            assert(before[q] == x);
                        } else if q > j {
                            assert(before[q - 1] == x);
                        }
                    }
                    if before.contains(x) {
                        let q = choose|q: int| 0 <= q < before.len() && before[q] == x;
                        if q < j {
                            assert(out@[q] == x);
                        } else {
                            assert(out@[q + 1] == x);
                        }
                    }
                    if x == k {
                        assert(out@[j as int] == k);
                    }
                }
            }
        }
        i += 1;
    }
    proof {
        assert(keys@.take(keys@.len() as int) =~= keys@);
        assert(out@.no_duplicates()) by {
            assert forall|a: int, b: int| 0 <= a < out@.len() && 0 <= b < out@.len() && a != b implies out@[a] != out@[b] by {
                if a < b {
                    assert(out@[a] < out@[b]);
                } else {
                    assert(out@[b] < out@[a]);
                }
            }
        }
    }
    out
}

/// Filtering the first `i + 1` items of `s` adds the `i`-th to the filtered
/// first `i` when it passes.
pub proof fn lemma_filter_take_step<T>(s: Seq<T>, p: spec_fn(T) -> bool, i: int)
    requires
        0 <= i < s.len(),
    ensures
        s.take(i + 1).filter(p) == if p(s[i]) {
            s.take(i).filter(p).push(s[i])
        } else {
            s.take(i).filter(p)
        },
{
    reveal_with_fuel(Seq::filter, 1);
    assert(s.take(i + 1).drop_last() =~= s.take(i));
    assert(s.take(i + 1).last() == s[i]);
}

/// An item is in `s` with `x` pushed exactly when it is `x` or in `s`.
pub proof fn lemma_push_contains<T>(s: Seq<T>, x: T, e: T)
    ensures
        s.push(x).contains(e) <==> s.contains(e) || e == x,
{
    if s.contains(e) {
        let i = choose|i: int| 0 <= i < s.len() && s[i] == e;
        assert(s.push(x)[i] == e);
    }
    if e == x {
        assert(s.push(x)[s.len() as int] == e);
    }
    if s.push(x).contains(e) {
        let i = choose|i: int| 0 <= i < s.push(x).len() && s.push(x)[i] == e;
        if i < s.len() {
            assert(s[i] == e);
        }
    }
}

} // verus!
