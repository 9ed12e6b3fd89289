//! Single-cell positions: which entity stands on which cell, one entity per
//! cell.

use std::collections::HashMap;

use vstd::prelude::*;

use crate::geom::GridMap;
use crate::hex::{coord_ok, hex_distance, Coord, RADIUS_LIMIT};
use crate::Entity;

verus! {

broadcast use vstd::std_specs::hash::group_hash_axioms;

/// The cell an entity stands on.
#[derive(Debug, Clone, Copy, PartialEq, Eq, Structural)]
pub struct Location(pub Coord);

impl Location {
    pub fn new(coord: Coord) -> (l: Location)
        ensures
            l.0 == coord,
    {
        Location(coord)
    }

    pub fn coord(&self) -> (c: Coord)
        ensures
            c == self.0,
    {
        self.0
    }
}

/// The entity standing on each cell.
#[derive(Debug)]
pub struct LocMap {
    cells: GridMap,
}

impl View for LocMap {
    type V = Map<Coord, Entity>;

    closed spec fn view(&self) -> Map<Coord, Entity> {
        self.cells@
    }
}

/// The occupant of `coord` in `m`, if any.
pub open spec fn occupant(m: Map<Coord, Entity>, coord: Coord) -> Option<Entity> {
    if m.contains_key(coord) {
        Some(m[coord])
    } else {
        None
    }
}

impl LocMap {
    pub fn new() -> (m: LocMap)
        ensures
            m@ == Map::<Coord, Entity>::empty(),
    {
        LocMap { cells: GridMap::new() }
    }

    /// The entity standing on `coord`.
    pub fn get(&self, coord: Coord) -> (e: Option<Entity>)
        ensures
            e == occupant(self@, coord),
    {
        self.cells.get(coord)
    }

    /// Puts `ent` on `coord`, recording its location; whoever stood there
    /// loses its location and is returned.
    pub fn set(&mut self, locs: &mut HashMap<Entity, Location>, coord: Coord, ent: Entity) -> (old_ent:
        Option<Entity>)
        ensures
            old_ent == occupant(old(self)@, coord),
            final(self)@ == old(self)@.insert(coord, ent),
            final(locs)@ == match old_ent {
                Some(e) => old(locs)@.remove(e),
                None => old(locs)@,
            }.insert(ent, Location(coord)),
    {
        let prev = self.cells.get(coord);
        self.cells.put(coord, ent);
        match prev {
            Some(e) => {
                locs.remove(&e);
            },
            None => {},
        }
        locs.insert(ent, Location(coord));
        prev
    }

    /// Empties `coord`; whoever stood there loses its location and is
    /// returned.
    pub fn clear(&mut self, locs: &mut HashMap<Entity, Location>, coord: Coord) -> (old_ent: Option<
        Entity,
    >)
        ensures
            old_ent == occupant(old(self)@, coord),
            final(self)@ == old(self)@.remove(coord),
            final(locs)@ == match old_ent {
                Some(e) => old(locs)@.remove(e),
                None => old(locs)@,
            },
    {
        let prev = self.cells.get(coord);
        self.cells.take(coord);
        match prev {
            Some(e) => {
                locs.remove(&e);
            },
            None => {},
        }
        prev
    }

    /// The entities standing on the cells within `radius` of `center`, one per
    /// occupied cell, in the order the grid walks the cells.
    pub fn in_range(&self, center: Coord, radius: i32) -> (out: Vec<Entity>)
        requires
            coord_ok(center),
            0 <= radius <= RADIUS_LIMIT,
        ensures
            exists|cells: Seq<Coord>|
                {
                    &&& cells.no_duplicates()
                    &&& forall|c: Coord| #[trigger] cells.contains(c) <==> hex_distance(center, c) <= radius
                    &&& out@ == cells.filter(|c: Coord| self@.contains_key(c)).map_values(|c: Coord| self@[c])
                },
    {
        let cells = center.range(radius);
        let ghost occ = |c: Coord| self@.contains_key(c);
        let ghost who = |c: Coord| self@[c];
        let mut out: Vec<Entity> = Vec::new();
        let mut i: usize = 0;
        while i < cells.len()
            invariant
                i <= cells.len(),
                occ == (|c: Coord| self@.contains_key(c)),
                who == (|c: Coord| self@[c]),
                out@ == cells@.take(i as int).filter(occ).map_values(who),
            decreases cells.len() - i,
        {
            let c = cells[i];
            proof {
                crate::util::lemma_filter_take_step(cells@, occ, i as int);
            }
            match self.get(c) {
                Some(e) => {
                    proof {
                        assert(cells@.take(i as int).filter(occ).push(c).map_values(who) =~= cells@.take(i as int).filter(occ).map_values(who).push(who(c)));
                    }
                    out.push(e);
                },
                None => {},
            }
            i += 1;
        }
        proof {
            assert(cells@.take(cells@.len() as int) =~= cells@);
        }
        out
    }
}


/// Putting an entity on an empty cell and then clearing the cell gives back
/// the map, and the entity's location is forgotten again when it had none.
pub proof fn law_set_then_clear(
    m: Map<Coord, Entity>,
    locs: Map<Entity, Location>,
    coord: Coord,
    ent: Entity,
)
    requires
        !m.contains_key(coord),
        !locs.contains_key(ent),
    ensures
        m.insert(coord, ent).remove(coord) == m,
        occupant(m.insert(coord, ent), coord) == Some(ent),
        locs.insert(ent, Location(coord)).remove(ent) == locs,
{
    assert(m.insert(coord, ent).remove(coord) =~= m);
    assert(locs.insert(ent, Location(coord)).remove(ent) =~= locs);
}

} // verus!
