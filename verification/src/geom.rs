//! Who occupies which cells of the grid, and which areas cover a cell.

use std::collections::{HashMap, HashSet};

use vstd::prelude::*;

use crate::error::{Error, Result};
use crate::hex::{contains_coord, coord_ok, hex_distance, Coord, RADIUS_LIMIT};
use crate::Entity;

verus! {

broadcast use vstd::std_specs::hash::group_hash_axioms;

/// The key a cell is stored under: its two components, each shifted to be
/// non-negative, side by side in one `u64`.
pub open spec fn key_of(c: Coord) -> int {
    (c.x + 2147483648) * 4294967296 + (c.y + 2147483648)
}

pub proof fn lemma_key_bounds(c: Coord)
    ensures
        0 <= key_of(c) <= u64::MAX,
{
}

pub proof fn lemma_key_injective(a: Coord, b: Coord)
    requires
        key_of(a) == key_of(b),
    ensures
        a == b,
{
    let ha = a.x + 2147483648;
    let hb = b.x + 2147483648;
    let la = a.y + 2147483648;
    let lb = b.y + 2147483648;
    assert(ha * 4294967296 - hb * 4294967296 == lb - la);
    if ha > hb {
        assert(ha * 4294967296 - hb * 4294967296 >= 4294967296) by (nonlinear_arith)
            requires
                ha > hb,
        ;
    }
    if ha < hb {
        assert(hb * 4294967296 - ha * 4294967296 >= 4294967296) by (nonlinear_arith)
            requires
                ha < hb,
        ;
    }
}

/// The key of a cell.
pub fn coord_key(c: Coord) -> (k: u64)
    ensures
        k == key_of(c),
{
    let hi = (c.x as i64 + 2147483648i64) as u64;
    let lo = (c.y as i64 + 2147483648i64) as u64;
    hi * 4294967296 + lo
}

/// A set of cells an entity takes up.
#[derive(Debug)]
pub struct Space {
    coords: Vec<Coord>,
}

impl View for Space {
    type V = Seq<Coord>;

    closed spec fn view(&self) -> Seq<Coord> {
        self.coords@
    }
}

/// The cells of `s`, each at its first place, in order.
pub open spec fn first_each(s: Seq<Coord>) -> Seq<Coord>
    decreases s.len(),
{
    if s.len() == 0 {
        Seq::empty()
    } else {
        let d = first_each(s.drop_last());
        if d.contains(s.last()) {
            d
        } else {
            d.push(s.last())
        }
    }
}

impl Space {
    /// The space made of the cells of `coords`, each taken once, at its first
    /// place.
    pub fn new(coords: Vec<Coord>) -> (s: Space)
        ensures
            s@ == first_each(coords@),
            s@.no_duplicates(),
            s@.to_set() == coords@.to_set(),
    {
        let mut out: Vec<Coord> = Vec::new();
        let mut i: usize = 0;
        while i < coords.len()
            invariant
                i <= coords.len(),
                out@.no_duplicates(),
                out@.to_set() == coords@.take(i as int).to_set(),
                out@ == first_each(coords@.take(i as int)),
            decreases coords.len() - i,
        {
            let c = coords[i];
            proof {
                assert(coords@.take(i + 1) =~= coords@.take(i as int).push(c));
                assert(coords@.take(i + 1).drop_last() =~= coords@.take(i as int));
                assert(out@.to_set().contains(c) == out@.contains(c));
                coords@.take(i as int).lemma_push_to_set_commute(c);
            }
            if !contains_coord(&out, c) {
                proof {
                    out@.lemma_push_to_set_commute(c);
                }
                out.push(c);
            } else {
                proof {
                    assert(coords@.take(i as int).to_set().contains(c));
                    assert(coords@.take(i as int).to_set().insert(c) =~= coords@.take(
                        i as int,
                    ).to_set());
                }
            }
            i += 1;
        }
        proof {
            assert(coords@.take(coords@.len() as int) =~= coords@);
        }
        Space { coords: out }
    }

    /// The cells of the space.
    pub fn coords(&self) -> (v: &Vec<Coord>)
        ensures
            v@ == self@,
    {
        &self.coords
    }
}

/// The occupant of each cell of the grid.
#[derive(Debug)]
pub struct GridMap {
    cells: HashMap<u64, Entity>,
}

/// Some cell of `s` has an occupant in `m`.
pub open spec fn occupied(m: Map<Coord, Entity>, s: Seq<Coord>) -> bool {
    exists|c: Coord| #[trigger] s.contains(c) && m.contains_key(c)
}

/// `m` with every cell of `s` given to `e`.
pub open spec fn placed(m: Map<Coord, Entity>, s: Seq<Coord>, e: Entity) -> Map<Coord, Entity> {
    m.union_prefer_right(Map::new(|c: Coord| s.contains(c), |c: Coord| e))
}

/// The entities found in the cells within distance `r` of `center`.
pub open spec fn found_in_range(m: Map<Coord, Entity>, center: Coord, r: int) -> Set<Entity> {
    Set::new(
        |e: Entity|
            exists|c: Coord| #[trigger]
                m.contains_key(c) && hex_distance(center, c) <= r && m[c] == e,
    )
}

impl View for GridMap {
    type V = Map<Coord, Entity>;

    closed spec fn view(&self) -> Map<Coord, Entity> {
        Map::new(
            |c: Coord| self.cells@.contains_key(key_of(c) as u64),
            |c: Coord| self.cells@[key_of(c) as u64],
        )
    }
}

impl GridMap {
    pub fn new() -> (m: GridMap)
        ensures
            m@ == Map::<Coord, Entity>::empty(),
    {
        let m = GridMap { cells: HashMap::new() };
        assert(m@ =~= Map::<Coord, Entity>::empty());
        m
    }

    /// The occupant of `coord`.
    pub fn get(&self, coord: Coord) -> (e: Option<Entity>)
        ensures
            e == (if self@.contains_key(coord) {
                Some(self@[coord])
            } else {
                None
            }),
    {
        match self.cells.get(&coord_key(coord)) {
            Some(e) => Some(*e),
            None => None,
        }
    }

    pub(crate) fn put(&mut self, coord: Coord, e: Entity)
        ensures
            final(self)@ == old(self)@.insert(coord, e),
    {
        let ghost old_view = self@;
        self.cells.insert(coord_key(coord), e);
        proof {
            assert forall|c: Coord| #![trigger self@.contains_key(c)]
                self@.contains_key(c) == old_view.insert(coord, e).contains_key(c) && (
                self@.contains_key(c) ==> self@[c] == old_view.insert(coord, e)[c]) by {
                if key_of(c) == key_of(coord) {
                    lemma_key_injective(c, coord);
                }
                lemma_key_bounds(c);
                lemma_key_bounds(coord);
            }
            assert(self@ =~= old_view.insert(coord, e));
        }
    }

    pub(crate) fn take(&mut self, coord: Coord)
        ensures
            final(self)@ == old(self)@.remove(coord),
    {
        let ghost old_view = self@;
        self.cells.remove(&coord_key(coord));
        proof {
            assert forall|c: Coord| #![trigger self@.contains_key(c)]
                self@.contains_key(c) == old_view.remove(coord).contains_key(c) && (
                self@.contains_key(c) ==> self@[c] == old_view.remove(coord)[c]) by {
                if key_of(c) == key_of(coord) {
                    lemma_key_injective(c, coord);
                }
                lemma_key_bounds(c);
                lemma_key_bounds(coord);
            }
            assert(self@ =~= old_view.remove(coord));
        }
    }

    /// Whether any cell of `space` has an occupant.
    pub fn is_occupied(&self, space: &Space) -> (b: bool)
        ensures
            b == occupied(self@, space@),
    {
        let coords = space.coords();
        let mut i: usize = 0;
        while i < coords.len()
            invariant
                i <= coords.len(),
                coords@ == space@,
                forall|j: int| 0 <= j < i ==> !self@.contains_key(#[trigger] coords@[j]),
            decreases coords.len() - i,
        {
            if self.get(coords[i]).is_some() {
                assert(coords@.contains(coords@[i as int]));
                return true;
            }
            i += 1;
        }
        proof {
            assert forall|c: Coord| #[trigger] space@.contains(c) implies !self@.contains_key(c) by {
                let j = choose|j: int| 0 <= j < coords@.len() && coords@[j] == c;
            }
        }
        false
    }

    /// Gives every cell of `space` to `ent` and records `space` as where `ent`
    /// stands.  Fails, changing nothing, when a cell is already taken.
    pub fn set(&mut self, locs: &mut HashMap<Entity, Space>, ent: Entity, space: Space) -> (r:
        Result<()>)
        ensures
            r is Err <==> occupied(old(self)@, space@),
            r is Err ==> r == Err::<(), Error>(Error::Occupied) && final(self)@ == old(self)@
                && final(locs)@ == old(locs)@,
            r is Ok ==> final(self)@ == placed(old(self)@, space@, ent) && final(locs)@ == old(
                locs,
            )@.insert(ent, space),
    {
        if self.is_occupied(&space) {
            return Err(Error::Occupied);
        }
        let ghost m0 = self@;
        {
            let coords = space.coords();
            let mut i: usize = 0;
            while i < coords.len()
                invariant
                    i <= coords.len(),
                    coords@ == space@,
                    self@ == placed(m0, coords@.take(i as int), ent),
                decreases coords.len() - i,
            {
                let c = coords[i];
                self.put(c, ent);
                proof {
                    let prev = coords@.take(i as int);
                    let next = coords@.take(i + 1);
                    assert(next =~= prev.push(c));
                    assert forall|x: Coord| #[trigger] next.contains(x) == (prev.contains(x)
                        || x == c) by {
                        if next.contains(x) && x != c {
                            let j = choose|j: int| 0 <= j < next.len() && next[j] == x;
                            assert(prev[j] == x);
                        }
                        if prev.contains(x) {
                            let j = choose|j: int| 0 <= j < prev.len() && prev[j] == x;
                            assert(next[j] == x);
                        }
                        if x == c {
                            assert(next[i as int] == x);
                        }
                    }
                    assert(self@ =~= placed(m0, next, ent));
                }
                i += 1;
            }
            proof {
                assert(coords@.take(coords@.len() as int) =~= coords@);
            }
        }
        locs.insert(ent, space);
        Ok(())
    }

    /// Frees the cells of the space recorded for `ent` and forgets it.  Fails,
    /// changing nothing, when no space is recorded for `ent`.
    pub fn clear(&mut self, locs: &mut HashMap<Entity, Space>, ent: Entity) -> (r: Result<()>)
        ensures
            r is Err <==> !old(locs)@.contains_key(ent),
            r is Err ==> r == Err::<(), Error>(Error::NoSuchComponent) && final(self)@ == old(
                self,
            )@ && final(locs)@ == old(locs)@,
            r is Ok ==> final(self)@ == old(self)@.remove_keys(old(locs)@[ent]@.to_set())
                && final(locs)@ == old(locs)@.remove(ent),
    {
        let ghost m0 = self@;
        match locs.get(&ent) {
            None => {
                return Err(Error::NoSuchComponent);
            },
            Some(space) => {
                let coords = space.coords();
                let mut i: usize = 0;
                while i < coords.len()
                    invariant
                        i <= coords.len(),
                        self@ == m0.remove_keys(coords@.take(i as int).to_set()),
                    decreases coords.len() - i,
                {
                    let c = coords[i];
                    self.take(c);
                    proof {
                        assert(coords@.take(i + 1) =~= coords@.take(i as int).push(c));
                        coords@.take(i as int).lemma_push_to_set_commute(c);
                        assert(self@ =~= m0.remove_keys(coords@.take(i + 1).to_set()));
                    }
                    i += 1;
                }
                proof {
                    assert(coords@.take(coords@.len() as int) =~= coords@);
                }
            },
        }
        locs.remove(&ent);
        Ok(())
    }

    /// The occupants of the cells within distance `radius` of `center`.
    pub fn in_range(&self, center: Coord, radius: i32) -> (out: HashSet<Entity>)
        requires
            coord_ok(center),
            0 <= radius <= RADIUS_LIMIT,
        ensures
            out@ == found_in_range(self@, center, radius as int),
    {
        let cells = center.range(radius);
        let mut out: HashSet<Entity> = HashSet::new();
        let mut i: usize = 0;
        while i < cells.len()
            invariant
                i <= cells.len(),
                cells@.no_duplicates(),
                forall|c: Coord| cells@.contains(c) <==> hex_distance(center, c) <= radius,
                out@ == Set::new(
                    |e: Entity|
                        exists|j: int|
                            0 <= j < i && #[trigger] self@.contains_key(cells@[j]) && self@[cells@[j]]
                                == e,
                ),
            decreases cells.len() - i,
        {
            let c = cells[i];
            match self.get(c) {
                Some(e) => {
                    out.insert(e);
                },
                None => {},
            }
            proof {
                assert(out@ =~= Set::new(
                    |e: Entity|
                        exists|j: int|
                            0 <= j < i + 1 && #[trigger] self@.contains_key(cells@[j])
                                && self@[cells@[j]] == e,
                ));
            }
            i += 1;
        }
        proof {
            assert forall|e: Entity| #[trigger] out@.contains(e) == found_in_range(
                self@,
                center,
                radius as int,
            ).contains(e) by {
                if found_in_range(self@, center, radius as int).contains(e) {
                    let c = choose|c: Coord| #[trigger]
                        self@.contains_key(c) && hex_distance(center, c) <= radius && self@[c]
                            == e;
                    assert(cells@.contains(c));
                    let j = choose|j: int| 0 <= j < cells@.len() && cells@[j] == c;
                    assert(self@.contains_key(cells@[j]));
                }
                if out@.contains(e) {
                    let j = choose|j: int|
                        0 <= j < cells@.len() && #[trigger] self@.contains_key(cells@[j])
                            && self@[cells@[j]] == e;
                    assert(cells@.contains(cells@[j]));
                }
            }
            assert(out@ =~= found_in_range(self@, center, radius as int));
        }
        out
    }
}

/// Placing a space and then clearing it gives back the map it was placed in:
/// a placement only succeeds on free cells, and clearing frees exactly them.
pub proof fn law_clear_undoes_set(m: Map<Coord, Entity>, space: Seq<Coord>, ent: Entity)
    requires
        !occupied(m, space),
    ensures
        placed(m, space, ent).remove_keys(space.to_set()) == m,
{
    assert forall|c: Coord| #[trigger] m.contains_key(c) implies !space.to_set().contains(c) by {
        if space.contains(c) {
            assert(occupied(m, space));
        }
    }
    assert(placed(m, space, ent).remove_keys(space.to_set()) =~= m);
}

/// A circular area of the grid that belongs to an entity.
#[derive(Debug, Clone, Copy, PartialEq, Eq, Structural)]
pub struct Area {
    pub center: Coord,
    pub radius: i32,
    pub entity: Entity,
}

pub open spec fn area_of(center: Coord, radius: i32, entity: Entity) -> Area {
    Area { center, radius, entity }
}

/// `area` covers the cell `at`.
pub open spec fn covers(area: Area, at: Coord) -> bool {
    hex_distance(area.center, at) <= area.radius
}

/// The areas of the grid, each of which knows its entity.
#[derive(Debug)]
pub struct AreaMap {
    areas: Vec<Area>,
}

impl View for AreaMap {
    type V = Seq<Area>;

    closed spec fn view(&self) -> Seq<Area> {
        self.areas@
    }
}

/// The entities of the areas in `areas` that cover `at`, in order.
pub open spec fn covering(areas: Seq<Area>, at: Coord) -> Seq<Entity>
    decreases areas.len(),
{
    if areas.len() == 0 {
        Seq::empty()
    } else {
        let rest = covering(areas.drop_last(), at);
        if covers(areas.last(), at) {
            rest.push(areas.last().entity)
        } else {
            rest
        }
    }
}

/// The entities of the areas in `areas` that overlap the disk of radius `r`
/// around `at`, in order.
pub open spec fn overlapping(areas: Seq<Area>, at: Coord, r: int) -> Seq<Entity>
    decreases areas.len(),
{
    if areas.len() == 0 {
        Seq::empty()
    } else {
        let rest = overlapping(areas.drop_last(), at, r);
        if hex_distance(areas.last().center, at) <= areas.last().radius + r {
            rest.push(areas.last().entity)
        } else {
            rest
        }
    }
}

/// Every area has a center whose distances can be computed.
pub open spec fn areas_ok(areas: Seq<Area>) -> bool {
    forall|i: int| 0 <= i < areas.len() ==> coord_ok(#[trigger] areas[i].center)
}

impl AreaMap {
    pub fn new() -> (m: AreaMap)
        ensures
            m@ == Seq::<Area>::empty(),
    {
        AreaMap { areas: Vec::new() }
    }

    /// Adds the area of radius `radius` around `center` owned by `entity`.
    pub fn insert(&mut self, center: Coord, radius: i32, entity: Entity)
        ensures
            final(self)@ == old(self)@.push(area_of(center, radius, entity)),
    {
        self.areas.push(Area { center, radius, entity });
    }

    /// Removes one area equal to the one described, if there is one; says
    /// whether it did.
    pub fn remove(&mut self, center: Coord, radius: i32, entity: Entity) -> (found: bool)
        ensures
            found <==> old(self)@.contains(area_of(center, radius, entity)),
            found ==> exists|i: int|
                0 <= i < old(self)@.len() && old(self)@[i] == area_of(center, radius, entity)
                    && final(self)@ == old(self)@.remove(i),
            !found ==> final(self)@ == old(self)@,
    {
        let target = Area { center, radius, entity };
        let mut i: usize = 0;
        while i < self.areas.len()
            invariant
                i <= self.areas.len(),
                self@ == old(self)@,
                target == area_of(center, radius, entity),
                forall|j: int| 0 <= j < i ==> self@[j] != target,
            decreases self.areas.len() - i,
        {
            if self.areas[i] == target {
                let ghost before = self@;
                assert(before[i as int] == target);
                assert(before == old(self)@);
                assert(target == area_of(center, radius, entity));
                assert(old(self)@[i as int] == target);
                self.areas.remove(i);
                assert(self@ == old(self)@.remove(i as int));
                return true;
            }
            i += 1;
        }
        false
    }

    /// The entities whose areas cover `at`.
    pub fn find(&self, at: Coord) -> (found: Vec<Entity>)
        requires
            areas_ok(self@),
            coord_ok(at),
        ensures
            found@ == covering(self@, at),
    {
        let mut out: Vec<Entity> = Vec::new();
        let mut i: usize = 0;
        while i < self.areas.len()
            invariant
                i <= self.areas.len(),
                areas_ok(self@),
                coord_ok(at),
                out@ == covering(self@.take(i as int), at),
            decreases self.areas.len() - i,
        {
            let area = self.areas[i];
            proof {
                assert(self@.take(i + 1).drop_last() =~= self@.take(i as int));
                assert(self@.take(i + 1).last() == area);
            }
            if area.center.distance(at) <= area.radius {
                out.push(area.entity);
            }
            i += 1;
        }
        proof {
            assert(self@.take(self@.len() as int) =~= self@);
        }
        out
    }
}

impl AreaMap {
    /// The entities whose areas overlap the disk of radius `radius` around
    /// `at`: those whose centers lie within the sum of the two radii.
    pub fn find_overlap(&self, at: Coord, radius: i32) -> (found: Vec<Entity>)
        requires
            areas_ok(self@),
            coord_ok(at),
        ensures
            found@ == overlapping(self@, at, radius as int),
    {
        let mut out: Vec<Entity> = Vec::new();
        let mut i: usize = 0;
        while i < self.areas.len()
            invariant
                i <= self.areas.len(),
                areas_ok(self@),
                coord_ok(at),
                out@ == overlapping(self@.take(i as int), at, radius as int),
            decreases self.areas.len() - i,
        {
            let area = self.areas[i];
            proof {
                assert(self@.take(i + 1).drop_last() =~= self@.take(i as int));
                assert(self@.take(i + 1).last() == area);
            }
            let d = area.center.distance(at) as i64;
            if d <= area.radius as i64 + radius as i64 {
                out.push(area.entity);
            }
            i += 1;
        }
        proof {
            assert(self@.take(self@.len() as int) =~= self@);
        }
        out
    }
}

} // verus!
