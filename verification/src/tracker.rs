//! The chunk residency tracker: which tiles are materialized, which tile the
//! viewer was last seen in, and the per-cycle diff of the desired nine-tile
//! neighborhood against the resident set.

use vstd::pervasive::VecAdditionalExecFns;
use vstd::prelude::*;

use crate::coords::{
    adjacent, desired_seq, lemma_desired_seq_adjacent, lemma_tile_interior, tile_interior,
    tile_of, tile_of_position, GridCoord,
};
use crate::entries::{
    find_key, has_key, lemma_filter_entries, lemma_find_key, lemma_map_of_dom,
    lemma_map_of_index, map_of, unique_keys, Entry, TileHandle,
};

verus! {

/// The tracker's mathematical state: the cell size, the tile the viewer was
/// last seen in (none before the first cycle), and the resident entries in
/// registration order.
pub ghost struct TrackerModel {
    pub chunk_size: int,
    pub current_tile: Option<GridCoord>,
    pub resident: Seq<Entry>,
}

impl TrackerModel {
    /// Well-formed: a positive cell size and at most one entry per coordinate.
    pub open spec fn wf(self) -> bool {
        &&& self.chunk_size > 0
        &&& unique_keys(self.resident)
    }

    /// The resident entries as the mapping from coordinate to handle.
    pub open spec fn resident_map(self) -> Map<GridCoord, TileHandle> {
        map_of(self.resident)
    }

    /// The desired coordinates around `t` that are not yet resident, in the
    /// row-major order of the desired neighborhood.
    pub open spec fn to_spawn(self, t: GridCoord) -> Seq<GridCoord> {
        desired_seq(t).filter(|c: GridCoord| !has_key(self.resident, c))
    }

    /// The resident entries outside the neighborhood of `t`, in registration
    /// order.
    pub open spec fn to_despawn(self, t: GridCoord) -> Seq<Entry> {
        self.resident.filter(|p: Entry| !adjacent(t, p.0))
    }

    /// The resident entries inside the neighborhood of `t`, in registration
    /// order.
    pub open spec fn kept(self, t: GridCoord) -> Seq<Entry> {
        self.resident.filter(|p: Entry| adjacent(t, p.0))
    }

    /// One evaluation cycle: the state after the call, the coordinates to
    /// create, and the entries to destroy.
    ///
    /// If the viewer is still in the tile of the previous cycle, nothing
    /// changes and both work lists are empty. Otherwise the tracker settles
    /// on the new tile, evicts every resident entry outside its nine-tile
    /// neighborhood, asks for every desired coordinate that was not already
    /// resident before the eviction, and keeps the rest.
    pub open spec fn evaluate_spec(self, vx: int, vz: int) -> (TrackerModel, Seq<GridCoord>, Seq<
        Entry,
    >) {
        let t = tile_of(vx, vz, self.chunk_size);
        if self.current_tile == Some(t) {
            (self, Seq::<GridCoord>::empty(), Seq::<Entry>::empty())
        } else {
            (
                TrackerModel {
                    chunk_size: self.chunk_size,
                    current_tile: Some(t),
                    resident: self.kept(t),
                },
                self.to_spawn(t),
                self.to_despawn(t),
            )
        }
    }

    /// One registration: the state after the call and the displaced handle.
    ///
    /// A fresh coordinate is appended. Registering a coordinate that is
    /// already resident is a caller defect: the later handle wins, and the
    /// displaced handle is returned so that it is never lost silently.
    pub open spec fn register_spec(self, coord: GridCoord, handle: TileHandle) -> (
        TrackerModel,
        Option<TileHandle>,
    ) {
        let i = find_key(self.resident, coord);
        if i == -1 {
            (
                TrackerModel {
                    chunk_size: self.chunk_size,
                    current_tile: self.current_tile,
                    resident: self.resident.push((coord, handle)),
                },
                None,
            )
        } else {
            (
                TrackerModel {
                    chunk_size: self.chunk_size,
                    current_tile: self.current_tile,
                    resident: self.resident.update(i, (coord, handle)),
                },
                Some(self.resident[i].1),
            )
        }
    }
}

/// Whether `list` holds the coordinate `c`.
fn coord_in(list: &Vec<GridCoord>, c: GridCoord) -> (r: bool)
    ensures
        r == list@.contains(c),
{
    let mut i: usize = 0;
    while i < list.len()
        invariant
            i <= list.len(),
            forall|j: int| 0 <= j < i ==> list@[j] != c,
        decreases list.len() - i,
    {
        if list[i] == c {
            return true;
        }
        i += 1;
    }
    false
}

/// Whether some entry of `list` carries the coordinate `c`.
fn entries_have_key(list: &Vec<Entry>, c: GridCoord) -> (r: bool)
    ensures
        r == has_key(list@, c),
{
    let mut i: usize = 0;
    while i < list.len()
        invariant
            i <= list.len(),
            forall|j: int| 0 <= j < i ==> (#[trigger] list@[j]).0 != c,
        decreases list.len() - i,
    {
        if list[i].0 == c {
            assert(has_key(list@, c));
            return true;
        }
        i += 1;
    }
    false
}

/// The nine desired coordinates around `t`, row-major from offset `(-1, -1)`
/// to `(1, 1)`.
fn desired_vec(t: GridCoord) -> (d: Vec<GridCoord>)
    requires
        tile_interior(t),
    ensures
        d@ == desired_seq(t),
{
    let mut d: Vec<GridCoord> = Vec::new();
    d.push(GridCoord { x: t.x - 1, z: t.z - 1 });
    d.push(GridCoord { x: t.x - 1, z: t.z });
    d.push(GridCoord { x: t.x - 1, z: t.z + 1 });
    d.push(GridCoord { x: t.x, z: t.z - 1 });
    d.push(GridCoord { x: t.x, z: t.z });
    d.push(GridCoord { x: t.x, z: t.z + 1 });
    d.push(GridCoord { x: t.x + 1, z: t.z - 1 });
    d.push(GridCoord { x: t.x + 1, z: t.z });
    d.push(GridCoord { x: t.x + 1, z: t.z + 1 });
    proof {
        assert(d@ =~= desired_seq(t));
    }
    d
}

/// Tracks which terrain tiles are resident around the moving viewer.
pub struct ChunkTracker {
    chunk_size: i64,
    current_tile: Option<GridCoord>,
    resident: Vec<Entry>,
}

impl View for ChunkTracker {
    type V = TrackerModel;

    closed spec fn view(&self) -> TrackerModel {
        TrackerModel {
            chunk_size: self.chunk_size as int,
            current_tile: self.current_tile,
            resident: self.resident@,
        }
    }
}

impl ChunkTracker {
    /// A tracker for cells `chunk_size` wide: nothing resident, and no
    /// current tile yet, so the first evaluation never looks like a repeat.
    pub fn new(chunk_size: i64) -> (tracker: ChunkTracker)
        requires
            chunk_size >= 1,
        ensures
            tracker@.wf(),
            tracker@.chunk_size == chunk_size as int,
            tracker@.current_tile is None,
            tracker@.resident == Seq::<Entry>::empty(),
    {
        let tracker = ChunkTracker { chunk_size, current_tile: None, resident: Vec::new() };
        proof {
            assert(tracker@.resident =~= Seq::<Entry>::empty());
        }
        tracker
    }

    /// The cell size the tracker was made with.
    pub fn chunk_size(&self) -> (cs: i64)
        ensures
            cs as int == self@.chunk_size,
    {
        self.chunk_size
    }

    /// The tile the tracker last settled on, if any cycle has run yet.
    pub fn current_tile(&self) -> (t: Option<GridCoord>)
        ensures
            t == self@.current_tile,
    {
        self.current_tile
    }

    /// How many tiles are resident.
    pub fn resident_count(&self) -> (n: usize)
        ensures
            n == self@.resident.len(),
    {
        self.resident.len()
    }

    /// Whether a tile is resident at `coord`.
    pub fn is_resident(&self, coord: GridCoord) -> (r: bool)
        ensures
            r == has_key(self@.resident, coord),
    {
        entries_have_key(&self.resident, coord)
    }

    /// The handle registered for `coord`, if one is.
    pub fn handle_of(&self, coord: GridCoord) -> (r: Option<TileHandle>)
        requires
            self@.wf(),
        ensures
            r == if self@.resident_map().dom().contains(coord) {
                Some(self@.resident_map()[coord])
            } else {
                None::<TileHandle>
            },
    {
        proof {
            lemma_map_of_dom(self@.resident);
        }
        let mut i: usize = 0;
        while i < self.resident.len()
            invariant
                i <= self.resident.len(),
                self@.wf(),
                forall|j: int| 0 <= j < i ==> (#[trigger] self@.resident[j]).0 != coord,
            decreases self.resident.len() - i,
        {
            if self.resident[i].0 == coord {
                proof {
                    lemma_map_of_dom(self@.resident);
                    lemma_map_of_index(self@.resident, i as int);
                }
                return Some(self.resident[i].1);
            }
            i += 1;
        }
        proof {
            lemma_map_of_dom(self@.resident);
        }
        None
    }

    /// One evaluation cycle, handed the viewer's position in world units.
    ///
    /// Returns the coordinates to create and the `(coordinate, handle)`
    /// entries to destroy, evicting the latter eagerly. The caller is
    /// expected to materialize a tile for each returned coordinate and hand
    /// the handle back through [`ChunkTracker::register`].
    ///
    /// The position bounds only keep the neighbor coordinates representable;
    /// they exclude nothing a terrain of plausible extent could reach.
    pub fn evaluate(&mut self, vx: i64, vz: i64) -> (work: (Vec<GridCoord>, Vec<Entry>))
        requires
            old(self)@.wf(),
            i64::MIN < vx < i64::MAX,
            i64::MIN < vz < i64::MAX,
        ensures
            final(self)@.wf(),
            final(self)@ == old(self)@.evaluate_spec(vx as int, vz as int).0,
            work.0@ == old(self)@.evaluate_spec(vx as int, vz as int).1,
            work.1@ == old(self)@.evaluate_spec(vx as int, vz as int).2,
    {
        let ghost pre = self@;
        let t = tile_of_position(vx, vz, self.chunk_size);
        proof {
            lemma_tile_interior(vx as int, vz as int, pre.chunk_size);
        }
        let same = match self.current_tile {
            Some(cur) => cur == t,
            None => false,
        };
        if same {
            let spawn: Vec<GridCoord> = Vec::new();
            let despawn: Vec<Entry> = Vec::new();
            proof {
                assert(spawn@ =~= pre.evaluate_spec(vx as int, vz as int).1);
                assert(despawn@ =~= pre.evaluate_spec(vx as int, vz as int).2);
            }
            return (spawn, despawn);
        }
        self.current_tile = Some(t);

        let desired = desired_vec(t);

        // Desired coordinates not yet resident, diffed against the resident
        // set before any eviction: a tile both resident and still desired
        // must not be regenerated.
        let mut spawn: Vec<GridCoord> = Vec::new();
        let mut i: usize = 0;
        proof {
            assert(desired_seq(t).take(0) =~= Seq::<GridCoord>::empty());
            assert(spawn@ =~= Seq::<GridCoord>::empty().filter(
                |c: GridCoord| !has_key(pre.resident, c),
            ));
        }
        while i < desired.len()
            invariant
                i <= desired.len(),
                desired@ == desired_seq(t),
                self.resident@ == pre.resident,
                spawn@ == desired_seq(t).take(i as int).filter(
                    |c: GridCoord| !has_key(pre.resident, c),
                ),
            decreases desired.len() - i,
        {
            let c = desired[i];
            let already = entries_have_key(&self.resident, c);
            proof {
                let pred = |c: GridCoord| !has_key(pre.resident, c);
                let d = desired_seq(t);
                assert(d.take(i + 1).drop_last() =~= d.take(i as int));
                d.take(i as int).lemma_filter_push(d[i as int], pred);
                assert(d.take(i as int).push(d[i as int]) =~= d.take(i + 1));
            }
            if !already {
                spawn.push(c);
            }
            i += 1;
        }
        proof {
            assert(desired_seq(t).take(desired@.len() as int) =~= desired_seq(t));
        }

        // Split the resident entries into the kept ones (still desired) and
        // the evicted ones, in registration order.
        let mut kept: Vec<Entry> = Vec::new();
        let mut despawn: Vec<Entry> = Vec::new();
        let mut j: usize = 0;
        proof {
            assert(pre.resident.take(0) =~= Seq::<Entry>::empty());
            assert(kept@ =~= Seq::<Entry>::empty().filter(|p: Entry| adjacent(t, p.0)));
            assert(despawn@ =~= Seq::<Entry>::empty().filter(|p: Entry| !adjacent(t, p.0)));
        }
        while j < self.resident.len()
            invariant
                j <= self.resident.len(),
                self.resident@ == pre.resident,
                desired@ == desired_seq(t),
                tile_interior(t),
                kept@ == pre.resident.take(j as int).filter(|p: Entry| adjacent(t, p.0)),
                despawn@ == pre.resident.take(j as int).filter(|p: Entry| !adjacent(t, p.0)),
            decreases self.resident.len() - j,
        {
            let entry = self.resident[j];
            let keep = coord_in(&desired, entry.0);
            proof {
                lemma_desired_seq_adjacent(t);
                assert(desired_seq(t).to_set().contains(entry.0) == desired_seq(t).contains(
                    entry.0,
                ));
                assert(keep == adjacent(t, entry.0));
                let keep_pred = |p: Entry| adjacent(t, p.0);
                let drop_pred = |p: Entry| !adjacent(t, p.0);
                let s = pre.resident;
                assert(s.take(j + 1).drop_last() =~= s.take(j as int));
                s.take(j as int).lemma_filter_push(s[j as int], keep_pred);
                s.take(j as int).lemma_filter_push(s[j as int], drop_pred);
                assert(s.take(j as int).push(s[j as int]) =~= s.take(j + 1));
            }
            if keep {
                kept.push(entry);
            } else {
                despawn.push(entry);
            }
            j += 1;
        }
        proof {
            assert(pre.resident.take(pre.resident.len() as int) =~= pre.resident);
            lemma_filter_entries(pre.resident, |p: Entry| adjacent(t, p.0));
        }
        self.resident = kept;
        (spawn, despawn)
    }

    /// Record the handle of the tile materialized at `coord`.
    ///
    /// Fresh coordinates are simply inserted. A second registration for the
    /// same coordinate signals a duplicate-spawn defect in the caller: the
    /// later handle wins, and the displaced handle is returned so the caller
    /// can surface it; it is never dropped silently.
    pub fn register(&mut self, coord: GridCoord, handle: TileHandle) -> (displaced: Option<
        TileHandle,
    >)
        requires
            old(self)@.wf(),
        ensures
            final(self)@.wf(),
            final(self)@ == old(self)@.register_spec(coord, handle).0,
            displaced == old(self)@.register_spec(coord, handle).1,
            displaced is Some <==> has_key(old(self)@.resident, coord),
    {
        let ghost pre = self@;
        let mut i: usize = 0;
        while i < self.resident.len()
            invariant
                i <= self.resident.len(),
                self@ == pre,
                pre == old(self)@,
                pre.wf(),
                forall|j: int| 0 <= j < i ==> (#[trigger] pre.resident[j]).0 != coord,
            decreases self.resident.len() - i,
        {
            if self.resident[i].0 == coord {
                let old_handle = self.resident[i].1;
                self.resident.set(i, (coord, handle));
                proof {
                    lemma_find_key(pre.resident, coord);
                    assert(has_key(pre.resident, coord));
                    let f = find_key(pre.resident, coord);
                    assert(f == i as int) by {
                        if f < i as int {
                            assert(pre.resident[f].0 != coord);
                        }
                        if f > i as int {
                            assert(pre.resident[i as int].0 != coord);
                        }
                    }
                    assert(unique_keys(pre.resident.update(i as int, (coord, handle)))) by {
                        let u = pre.resident.update(i as int, (coord, handle));
                        assert forall|a: int, b: int| 0 <= a < b < u.len() implies u[a].0
                            != u[b].0 by {
                            if a != i as int && b != i as int {
                                assert(pre.resident[a].0 != pre.resident[b].0);
                            } else if a == i as int {
                                assert(pre.resident[b].0 != coord);
                            } else {
                                assert(pre.resident[a].0 != coord);
                            }
                        }
                    }
                }
                return Some(old_handle);
            }
            i += 1;
        }
        self.resident.push((coord, handle));
        proof {
            lemma_find_key(pre.resident, coord);
            assert(!has_key(pre.resident, coord));
            assert(unique_keys(pre.resident.push((coord, handle)))) by {
                let u = pre.resident.push((coord, handle));
                assert forall|a: int, b: int| 0 <= a < b < u.len() implies u[a].0 != u[b].0 by {
                    if b < u.len() - 1 {
                        assert(pre.resident[a].0 != pre.resident[b].0);
                    } else {
                        assert(pre.resident[a].0 != coord);
                    }
                }
            }
        }
        None
    }
}

} // verus!
