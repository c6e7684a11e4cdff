//! The guarantees the tracker gives across calls, stated over the tracker's
//! mathematical state and proved once and for all.

use vstd::prelude::*;
use vstd::set_lib::lemma_len_subset;

use crate::coords::{
    adjacent, desired_seq, lemma_desired_seq_adjacent, lemma_tile_interior, neighborhood,
    tile_interior, tile_of, GridCoord,
};
use crate::entries::{
    find_key, has_key, lemma_filter_entries, lemma_find_key, lemma_map_of_dom, lemma_map_of_index,
    lemma_map_of_len, lemma_map_of_push, lemma_map_of_update, map_of, unique_keys, Entry,
    TileHandle,
};
use crate::tracker::TrackerModel;

verus! {

/// A filter that keeps every element of a sequence returns the sequence.
proof fn lemma_filter_all<A>(s: Seq<A>, pred: spec_fn(A) -> bool)
    requires
        forall|i: int| 0 <= i < s.len() ==> pred(#[trigger] s[i]),
    ensures
        s.filter(pred) == s,
    decreases s.len(),
{
    if s.len() == 0 {
        s.lemma_filter_len(pred);
        assert(s.filter(pred) =~= s);
    } else {
        let rest = s.drop_last();
        lemma_filter_all(rest, pred);
        rest.lemma_filter_push(s.last(), pred);
        assert(rest.push(s.last()) =~= s);
    }
}

/// Filtering a sequence without repetitions leaves no repetitions.
proof fn lemma_filter_no_duplicates<A>(s: Seq<A>, pred: spec_fn(A) -> bool)
    requires
        s.no_duplicates(),
    ensures
        s.filter(pred).no_duplicates(),
    decreases s.len(),
{
    if s.len() == 0 {
        s.lemma_filter_len(pred);
    } else {
        let rest = s.drop_last();
        assert(rest.no_duplicates());
        lemma_filter_no_duplicates(rest, pred);
        rest.lemma_filter_push(s.last(), pred);
        assert(rest.push(s.last()) =~= s);
        let f = s.filter(pred);
        let fr = rest.filter(pred);
        if pred(s.last()) {
            assert(f == fr.push(s.last()));
            assert(!fr.contains(s.last())) by {
                if fr.contains(s.last()) {
                    rest.lemma_filter_contains_rev(pred, s.last());
                    let k = choose|k: int| 0 <= k < rest.len() && rest[k] == s.last();
                    assert(s[k] == s[s.len() - 1]);
                }
            }
            assert forall|a: int, b: int|
                0 <= a < b < f.len() implies #[trigger] f[a] != #[trigger] f[b] by {
                if b == f.len() - 1 {
                    assert(fr.contains(fr[a]));
                    assert(f[a] == fr[a]);
                }
            }
        }
    }
}

/// Registering a tile updates the tracked mapping at that coordinate alone:
/// the new handle is recorded, every other coordinate keeps its entry, keys
/// stay unique, and the entry count grows only when the coordinate was new.
/// The displaced handle, returned exactly on a duplicate registration, is the
/// handle the mapping held before.
pub proof fn lemma_register_updates_map(m: TrackerModel, coord: GridCoord, handle: TileHandle)
    requires
        m.wf(),
    ensures
        ({
            let (m1, displaced) = m.register_spec(coord, handle);
            &&& m1.wf()
            &&& m1.chunk_size == m.chunk_size
            &&& m1.current_tile == m.current_tile
            &&& has_key(m1.resident, coord)
            &&& map_of(m1.resident) == map_of(m.resident).insert(coord, handle)
            &&& displaced == (if has_key(m.resident, coord) {
                Some(map_of(m.resident)[coord])
            } else {
                None::<TileHandle>
            })
            &&& m1.resident.len() == (if has_key(m.resident, coord) {
                m.resident.len()
            } else {
                m.resident.len() + 1
            })
        }),
{
    let s = m.resident;
    lemma_find_key(s, coord);
    lemma_map_of_dom(s);
    let f = find_key(s, coord);
    if f == -1 {
        let u = s.push((coord, handle));
        lemma_map_of_push(s, coord, handle);
        assert(u[u.len() - 1].0 == coord);
        assert(unique_keys(u)) by {
            assert forall|a: int, b: int| 0 <= a < b < u.len() implies (#[trigger] u[a]).0
                != (#[trigger] u[b]).0 by {
                if b < u.len() - 1 {
                    assert(s[a].0 != s[b].0);
                } else {
                    assert(!has_key(s, coord));
                    assert(s[a].0 != coord);
                }
            }
        }
    } else {
        let u = s.update(f, (coord, handle));
        lemma_map_of_update(s, f, coord, handle);
        lemma_map_of_index(s, f);
        assert(u[f].0 == coord);
        assert(unique_keys(u)) by {
            assert forall|a: int, b: int| 0 <= a < b < u.len() implies (#[trigger] u[a]).0
                != (#[trigger] u[b]).0 by {
                if a != f && b != f {
                    assert(s[a].0 != s[b].0);
                } else if a == f {
                    assert(s[f].0 == coord);
                    assert(s[a].0 != s[b].0);
                } else {
                    assert(s[f].0 == coord);
                    assert(s[a].0 != s[b].0);
                }
            }
        }
    }
}

/// Two viewer positions falling in the same tile: whatever work the first
/// evaluation returned, the evaluation of the second position right after it
/// is a no-op that changes nothing and returns two empty work lists.
pub proof fn lemma_same_tile_no_op(m: TrackerModel, vx1: int, vz1: int, vx2: int, vz2: int)
    requires
        m.chunk_size > 0,
        tile_of(vx1, vz1, m.chunk_size) == tile_of(vx2, vz2, m.chunk_size),
    ensures
        ({
            let m1 = m.evaluate_spec(vx1, vz1).0;
            &&& m1.evaluate_spec(vx2, vz2).0 == m1
            &&& m1.evaluate_spec(vx2, vz2).1 == Seq::<GridCoord>::empty()
            &&& m1.evaluate_spec(vx2, vz2).2 == Seq::<Entry>::empty()
        }),
{
    let t = tile_of(vx1, vz1, m.chunk_size);
    let m1 = m.evaluate_spec(vx1, vz1).0;
    assert(m1.chunk_size == m.chunk_size);
    assert(m1.current_tile == Some(t));
}

/// From a fresh tracker, with nothing resident and no current tile yet, the
/// first evaluation always requests the whole nine-tile neighborhood, in
/// row-major order, and destroys nothing.
pub proof fn lemma_first_cycle(m: TrackerModel, vx: int, vz: int)
    requires
        m.wf(),
        m.current_tile is None,
        m.resident == Seq::<Entry>::empty(),
        i64::MIN < vx < i64::MAX,
        i64::MIN < vz < i64::MAX,
    ensures
        ({
            let t = tile_of(vx, vz, m.chunk_size);
            &&& m.evaluate_spec(vx, vz).1 == desired_seq(t)
            &&& m.evaluate_spec(vx, vz).1.len() == 9
            &&& m.evaluate_spec(vx, vz).2 == Seq::<Entry>::empty()
            &&& m.evaluate_spec(vx, vz).0.current_tile == Some(t)
            &&& m.evaluate_spec(vx, vz).0.resident == Seq::<Entry>::empty()
        }),
{
    let t = tile_of(vx, vz, m.chunk_size);
    lemma_tile_interior(vx, vz, m.chunk_size);
    lemma_filter_all(desired_seq(t), |c: GridCoord| !has_key(m.resident, c));
    m.resident.lemma_filter_len(|p: Entry| !adjacent(t, p.0));
    assert(m.to_despawn(t) =~= Seq::<Entry>::empty());
    m.resident.lemma_filter_len(|p: Entry| adjacent(t, p.0));
    assert(m.kept(t) =~= Seq::<Entry>::empty());
}

/// An evaluation that settled on a new tile partitions the old resident
/// entries: each stays resident exactly when its coordinate is still desired,
/// and goes on the destroy list exactly when it is not. Eviction is eager:
/// the surviving mapping is the old one restricted to the new neighborhood.
pub proof fn lemma_evaluate_partitions_resident(m: TrackerModel, vx: int, vz: int)
    requires
        m.wf(),
        m.current_tile != Some(tile_of(vx, vz, m.chunk_size)),
        tile_interior(tile_of(vx, vz, m.chunk_size)),
    ensures
        ({
            let t = tile_of(vx, vz, m.chunk_size);
            let m1 = m.evaluate_spec(vx, vz).0;
            let despawn = m.evaluate_spec(vx, vz).2;
            &&& m1.wf()
            &&& forall|e: Entry| #[trigger]
                m1.resident.contains(e) <==> m.resident.contains(e) && adjacent(t, e.0)
            &&& forall|e: Entry| #[trigger]
                despawn.contains(e) <==> m.resident.contains(e) && !adjacent(t, e.0)
            &&& despawn.no_duplicates()
            &&& map_of(m1.resident) == map_of(m.resident).restrict(neighborhood(t))
        }),
{
    let t = tile_of(vx, vz, m.chunk_size);
    let m1 = m.evaluate_spec(vx, vz).0;
    let kept = m1.resident;
    lemma_desired_seq_adjacent(t);
    lemma_filter_entries(m.resident, |p: Entry| adjacent(t, p.0));
    lemma_filter_entries(m.resident, |p: Entry| !adjacent(t, p.0));
    assert(m.resident.no_duplicates()) by {
        assert forall|a: int, b: int|
            0 <= a < b < m.resident.len() implies #[trigger] m.resident[a]
            != #[trigger] m.resident[b] by {
            assert(m.resident[a].0 != m.resident[b].0);
        }
    }
    lemma_filter_no_duplicates(m.resident, |p: Entry| !adjacent(t, p.0));
    lemma_map_of_dom(kept);
    lemma_map_of_dom(m.resident);
    assert(map_of(kept) =~= map_of(m.resident).restrict(neighborhood(t))) by {
        assert forall|c: GridCoord|
            #[trigger] map_of(kept).dom().contains(c)
                == map_of(m.resident).restrict(neighborhood(t)).dom().contains(c) by {
            if map_of(kept).dom().contains(c) {
                let i = choose|i: int| 0 <= i < kept.len() && (#[trigger] kept[i]).0 == c;
                assert(kept.contains(kept[i]));
                assert(m.resident.contains(kept[i]) && adjacent(t, c));
                let j = choose|j: int|
                    0 <= j < m.resident.len() && #[trigger] m.resident[j] == kept[i];
                assert(has_key(m.resident, c));
            }
            if map_of(m.resident).restrict(neighborhood(t)).dom().contains(c) {
                let j = choose|j: int|
                    0 <= j < m.resident.len() && (#[trigger] m.resident[j]).0 == c;
                assert(m.resident.contains(m.resident[j]));
                assert(adjacent(t, c));
                assert(kept.contains(m.resident[j]));
                let i = choose|i: int| 0 <= i < kept.len() && #[trigger] kept[i] == m.resident[j];
                assert(has_key(kept, c));
            }
        }
        assert forall|c: GridCoord| #[trigger]
            map_of(kept).dom().contains(c) implies map_of(kept)[c] == map_of(
            m.resident,
        ).restrict(neighborhood(t))[c] by {
            let i = choose|i: int| 0 <= i < kept.len() && (#[trigger] kept[i]).0 == c;
            lemma_map_of_index(kept, i);
            assert(kept.contains(kept[i]));
            assert(m.resident.contains(kept[i]));
            let j = choose|j: int| 0 <= j < m.resident.len() && #[trigger] m.resident[j] == kept[i];
            lemma_map_of_index(m.resident, j);
        }
    }
}

/// After an evaluation that settled on a new tile, the coordinates still
/// resident and the coordinates to spawn are disjoint and together make up
/// exactly the nine-tile desired neighborhood; the spawn list repeats no
/// coordinate.
pub proof fn lemma_evaluate_covers_neighborhood(m: TrackerModel, vx: int, vz: int)
    requires
        m.wf(),
        m.current_tile != Some(tile_of(vx, vz, m.chunk_size)),
        tile_interior(tile_of(vx, vz, m.chunk_size)),
    ensures
        ({
            let t = tile_of(vx, vz, m.chunk_size);
            let m1 = m.evaluate_spec(vx, vz).0;
            let spawn = m.evaluate_spec(vx, vz).1;
            &&& m1.wf()
            &&& map_of(m1.resident).dom().union(spawn.to_set()) == neighborhood(t)
            &&& map_of(m1.resident).dom().disjoint(spawn.to_set())
            &&& spawn.no_duplicates()
            &&& forall|i: int|
                0 <= i < m1.resident.len() ==> adjacent(t, (#[trigger] m1.resident[i]).0)
        }),
{
    let t = tile_of(vx, vz, m.chunk_size);
    let m1 = m.evaluate_spec(vx, vz).0;
    let kept = m1.resident;
    let spawn = m.evaluate_spec(vx, vz).1;
    let desired = desired_seq(t);
    let fresh = |c: GridCoord| !has_key(m.resident, c);
    lemma_desired_seq_adjacent(t);
    lemma_filter_entries(m.resident, |p: Entry| adjacent(t, p.0));
    lemma_map_of_dom(kept);
    lemma_filter_no_duplicates(desired, fresh);
    assert forall|i: int|
        0 <= i < kept.len() implies adjacent(t, (#[trigger] kept[i]).0) by {
        assert(kept.contains(kept[i]));
    }
    assert(map_of(kept).dom().union(spawn.to_set()) =~= neighborhood(t)) by {
        assert forall|c: GridCoord|
            #[trigger] map_of(kept).dom().union(spawn.to_set()).contains(c)
                == neighborhood(t).contains(c) by {
            if map_of(kept).dom().contains(c) {
                let i = choose|i: int| 0 <= i < kept.len() && (#[trigger] kept[i]).0 == c;
                assert(kept.contains(kept[i]));
            }
            if spawn.to_set().contains(c) {
                desired.lemma_filter_contains_rev(fresh, c);
                let i = choose|i: int| 0 <= i < spawn.len() && #[trigger] spawn[i] == c;
                desired.lemma_filter_pred(fresh, i);
            }
            if neighborhood(t).contains(c) {
                if has_key(m.resident, c) {
                    let j = choose|j: int|
                        0 <= j < m.resident.len() && (#[trigger] m.resident[j]).0 == c;
                    assert(adjacent(t, m.resident[j].0));
                    assert(kept.contains(m.resident[j]));
                    let i = choose|i: int|
                        0 <= i < kept.len() && #[trigger] kept[i] == m.resident[j];
                    assert(has_key(kept, c));
                } else {
                    let i = choose|i: int| 0 <= i < desired.len() && #[trigger] desired[i] == c;
                    desired.lemma_filter_contains(fresh, i);
                }
            }
        }
    }
    assert(map_of(kept).dom().disjoint(spawn.to_set())) by {
        assert forall|c: GridCoord| #[trigger]
            map_of(kept).dom().contains(c) implies !spawn.to_set().contains(c) by {
            let i = choose|i: int| 0 <= i < kept.len() && (#[trigger] kept[i]).0 == c;
            assert(kept.contains(kept[i]));
            assert(m.resident.contains(kept[i]));
            let j = choose|j: int| 0 <= j < m.resident.len() && #[trigger] m.resident[j] == kept[i];
            assert(has_key(m.resident, c));
            if spawn.to_set().contains(c) {
                let k = choose|k: int| 0 <= k < spawn.len() && #[trigger] spawn[k] == c;
                desired.lemma_filter_pred(fresh, k);
            }
        }
    }
}

/// A well-formed resident set whose coordinates all lie within one tile's
/// neighborhood holds at most nine entries.
pub proof fn lemma_resident_bound(m: TrackerModel, t: GridCoord)
    requires
        m.wf(),
        tile_interior(t),
        forall|i: int| 0 <= i < m.resident.len() ==> adjacent(t, (#[trigger] m.resident[i]).0),
    ensures
        m.resident.len() <= 9,
{
    lemma_map_of_len(m.resident);
    lemma_map_of_dom(m.resident);
    lemma_desired_seq_adjacent(t);
    assert(map_of(m.resident).dom().subset_of(neighborhood(t))) by {
        assert forall|c: GridCoord| #[trigger]
            map_of(m.resident).dom().contains(c) implies neighborhood(t).contains(c) by {
            let i = choose|i: int| 0 <= i < m.resident.len() && (#[trigger] m.resident[i]).0 == c;
            assert(adjacent(t, m.resident[i].0));
        }
    }
    lemma_len_subset(map_of(m.resident).dom(), neighborhood(t));
}

/// Registering a coordinate inside the tile's neighborhood keeps every
/// resident coordinate inside it, so however many of the returned spawn
/// coordinates are registered, and in whatever order, the resident set never
/// grows past the nine desired tiles.
pub proof fn lemma_register_in_neighborhood(
    m: TrackerModel,
    coord: GridCoord,
    handle: TileHandle,
    t: GridCoord,
)
    requires
        m.wf(),
        tile_interior(t),
        adjacent(t, coord),
        forall|i: int| 0 <= i < m.resident.len() ==> adjacent(t, (#[trigger] m.resident[i]).0),
    ensures
        ({
            let m1 = m.register_spec(coord, handle).0;
            &&& m1.wf()
            &&& forall|i: int|
                0 <= i < m1.resident.len() ==> adjacent(t, (#[trigger] m1.resident[i]).0)
            &&& m1.resident.len() <= 9
        }),
{
    lemma_register_updates_map(m, coord, handle);
    let m1 = m.register_spec(coord, handle).0;
    let f = find_key(m.resident, coord);
    lemma_find_key(m.resident, coord);
    assert forall|i: int|
        0 <= i < m1.resident.len() implies adjacent(t, (#[trigger] m1.resident[i]).0) by {
        if f == -1 && i < m.resident.len() {
            assert(m1.resident[i] == m.resident[i]);
        }
    }
    lemma_resident_bound(m1, t);
}

/// The state after registering a whole batch of tiles, first to last.
pub open spec fn register_all(m: TrackerModel, batch: Seq<Entry>) -> TrackerModel
    decreases batch.len(),
{
    if batch.len() == 0 {
        m
    } else {
        register_all(m.register_spec(batch[0].0, batch[0].1).0, batch.drop_first())
    }
}

/// However many tiles inside the neighborhood are registered after an
/// evaluation, and in whatever order, the resident set stays inside the
/// neighborhood and never grows past the nine desired tiles.
pub proof fn lemma_register_all_bounded(m: TrackerModel, batch: Seq<Entry>, t: GridCoord)
    requires
        m.wf(),
        tile_interior(t),
        forall|i: int| 0 <= i < m.resident.len() ==> adjacent(t, (#[trigger] m.resident[i]).0),
        forall|i: int| 0 <= i < batch.len() ==> adjacent(t, (#[trigger] batch[i]).0),
    ensures
        register_all(m, batch).wf(),
        register_all(m, batch).resident.len() <= 9,
        forall|i: int|
            0 <= i < register_all(m, batch).resident.len() ==> adjacent(
                t,
                (#[trigger] register_all(m, batch).resident[i]).0,
            ),
    decreases batch.len(),
{
    if batch.len() == 0 {
        lemma_resident_bound(m, t);
    } else {
        lemma_register_in_neighborhood(m, batch[0].0, batch[0].1, t);
        let m1 = m.register_spec(batch[0].0, batch[0].1).0;
        assert forall|i: int|
            0 <= i < batch.drop_first().len() implies adjacent(
            t,
            (#[trigger] batch.drop_first()[i]).0,
        ) by {
            assert(batch.drop_first()[i] == batch[i + 1]);
        }
        lemma_register_all_bounded(m1, batch.drop_first(), t);
    }
}

/// Calling `register` twice for one coordinate leaves exactly one entry for
/// it: the later handle wins, the resident set does not grow on the second
/// call, and the second call surfaces the first handle as its defect signal.
pub proof fn lemma_register_twice(
    m: TrackerModel,
    coord: GridCoord,
    first: TileHandle,
    second: TileHandle,
)
    requires
        m.wf(),
    ensures
        ({
            let m1 = m.register_spec(coord, first).0;
            let (m2, displaced) = m1.register_spec(coord, second);
            &&& displaced == Some(first)
            &&& m2.wf()
            &&& m2.resident.len() == m1.resident.len()
            &&& has_key(m2.resident, coord)
            &&& map_of(m2.resident) == map_of(m.resident).insert(coord, second)
        }),
{
    lemma_register_updates_map(m, coord, first);
    let m1 = m.register_spec(coord, first).0;
    lemma_register_updates_map(m1, coord, second);
    let m2 = m1.register_spec(coord, second).0;
    assert(map_of(m1.resident)[coord] == first);
    assert(map_of(m2.resident) =~= map_of(m.resident).insert(coord, second));
}

} // verus!
