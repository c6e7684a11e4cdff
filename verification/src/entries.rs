//! The resident set as a sequence of key-value entries: a grid coordinate
//! paired with the handle of the tile materialized there. The sequence keeps
//! registration order; well-formedness asks that no coordinate appears twice.

use vstd::prelude::*;

use crate::coords::GridCoord;

verus! {

/// Opaque identifier for a materialized tile, owned by the rendering
/// collaborator. The tracker compares handles only by value.
#[derive(Clone, Copy, PartialEq, Eq, Structural, Debug)]
pub struct TileHandle {
    pub id: u64,
}

/// One resident entry: a coordinate and the handle of its tile.
pub type Entry = (GridCoord, TileHandle);

/// Some entry in `s` carries the coordinate `c`.
pub open spec fn has_key(s: Seq<Entry>, c: GridCoord) -> bool {
    exists|i: int| 0 <= i < s.len() && (#[trigger] s[i]).0 == c
}

/// No coordinate appears in two entries of `s`.
pub open spec fn unique_keys(s: Seq<Entry>) -> bool {
    forall|i: int, j: int| 0 <= i < j < s.len() ==> (#[trigger] s[i]).0 != (#[trigger] s[j]).0
}

/// The mapping the entries describe, later entries winning.
pub open spec fn map_of(s: Seq<Entry>) -> Map<GridCoord, TileHandle>
    decreases s.len(),
{
    if s.len() == 0 {
        Map::empty()
    } else {
        map_of(s.drop_last()).insert(s.last().0, s.last().1)
    }
}

/// The index of the first entry of `s` whose coordinate is `c`, or -1 when
/// there is none.
pub open spec fn find_key(s: Seq<Entry>, c: GridCoord) -> int
    decreases s.len(),
{
    if s.len() == 0 {
        -1
    } else if s[0].0 == c {
        0
    } else {
        let r = find_key(s.drop_first(), c);
        if r < 0 {
            -1
        } else {
            r + 1
        }
    }
}

/// `find_key` finds the first entry with the wanted coordinate, and fails
/// exactly when no entry has it.
pub proof fn lemma_find_key(s: Seq<Entry>, c: GridCoord)
    ensures
        find_key(s, c) == -1 <==> !has_key(s, c),
        find_key(s, c) != -1 ==> {
            &&& 0 <= find_key(s, c) < s.len()
            &&& s[find_key(s, c)].0 == c
            &&& forall|j: int| 0 <= j < find_key(s, c) ==> (#[trigger] s[j]).0 != c
        },
    decreases s.len(),
{
    if s.len() == 0 {
    } else if s[0].0 == c {
    } else {
        let rest = s.drop_first();
        lemma_find_key(rest, c);
        assert forall|i: int| 1 <= i < s.len() implies s[i] == rest[i - 1] by {}
        if has_key(s, c) {
            let i = choose|i: int| 0 <= i < s.len() && (#[trigger] s[i]).0 == c;
            assert(rest[i - 1].0 == c);
            assert(has_key(rest, c));
        }
        if has_key(rest, c) {
            let i = choose|i: int| 0 <= i < rest.len() && (#[trigger] rest[i]).0 == c;
            assert(s[i + 1].0 == c);
            assert(has_key(s, c));
        }
    }
}

/// A coordinate is in the mapping's domain exactly when some entry carries it.
pub proof fn lemma_map_of_dom(s: Seq<Entry>)
    ensures
        forall|c: GridCoord| #[trigger] map_of(s).dom().contains(c) <==> has_key(s, c),
    decreases s.len(),
{
    if s.len() == 0 {
    } else {
        let rest = s.drop_last();
        lemma_map_of_dom(rest);
        assert forall|c: GridCoord| #[trigger] map_of(s).dom().contains(c) <==> has_key(s, c) by {
            if map_of(s).dom().contains(c) {
                if c == s.last().0 {
                    assert(s[s.len() - 1].0 == c);
                } else {
                    assert(map_of(rest).dom().contains(c));
                    assert(has_key(rest, c));
                    let i = choose|i: int| 0 <= i < rest.len() && (#[trigger] rest[i]).0 == c;
                    assert(s[i].0 == c);
                }
            }
            if has_key(s, c) {
                let i = choose|i: int| 0 <= i < s.len() && (#[trigger] s[i]).0 == c;
                if i < s.len() - 1 {
                    assert(rest[i].0 == c);
                    assert(has_key(rest, c));
                    assert(map_of(rest).dom().contains(c));
                }
                assert(map_of(s).dom().contains(c));
            }
        }
    }
}

/// With unique keys, each entry's coordinate maps to that entry's handle.
pub proof fn lemma_map_of_index(s: Seq<Entry>, i: int)
    requires
        unique_keys(s),
        0 <= i < s.len(),
    ensures
        map_of(s).dom().contains(s[i].0),
        map_of(s)[s[i].0] == s[i].1,
    decreases s.len(),
{
    lemma_map_of_dom(s);
    if i == s.len() - 1 {
    } else {
        let rest = s.drop_last();
        lemma_map_of_index(rest, i);
    }
}

/// With unique keys, the mapping's domain has exactly one element per entry.
pub proof fn lemma_map_of_len(s: Seq<Entry>)
    requires
        unique_keys(s),
    ensures
        map_of(s).dom().finite(),
        map_of(s).dom().len() == s.len(),
    decreases s.len(),
{
    if s.len() == 0 {
        assert(map_of(s).dom() =~= Set::<GridCoord>::empty());
    } else {
        let rest = s.drop_last();
        lemma_map_of_len(rest);
        lemma_map_of_dom(rest);
        assert(!has_key(rest, s.last().0)) by {
            if has_key(rest, s.last().0) {
                let i = choose|i: int|
                    0 <= i < rest.len() && (#[trigger] rest[i]).0 == s.last().0;
                assert(s[i].0 == s[s.len() - 1].0);
            }
        }
        assert(map_of(s).dom() =~= map_of(rest).dom().insert(s.last().0));
    }
}

/// Replacing the entry at `i` by one with the same coordinate updates the
/// mapping at that coordinate alone.
pub proof fn lemma_map_of_update(s: Seq<Entry>, i: int, c: GridCoord, h: TileHandle)
    requires
        unique_keys(s),
        0 <= i < s.len(),
        s[i].0 == c,
    ensures
        map_of(s.update(i, (c, h))) == map_of(s).insert(c, h),
    decreases s.len(),
{
    let u = s.update(i, (c, h));
    if i == s.len() - 1 {
        assert(u.drop_last() =~= s.drop_last());
        assert(map_of(u) =~= map_of(s).insert(c, h));
    } else {
        let rest = s.drop_last();
        lemma_map_of_update(rest, i, c, h);
        assert(u.drop_last() =~= rest.update(i, (c, h)));
        assert(s.last().0 != c);
        assert(map_of(u) =~= map_of(s).insert(c, h));
    }
}

/// Appending an entry updates the mapping at its coordinate alone.
pub proof fn lemma_map_of_push(s: Seq<Entry>, c: GridCoord, h: TileHandle)
    ensures
        map_of(s.push((c, h))) == map_of(s).insert(c, h),
{
    assert(s.push((c, h)).drop_last() =~= s);
}

/// A subsequence selected by a predicate on coordinates keeps keys unique and
/// carries exactly the selected entries.
pub proof fn lemma_filter_entries(s: Seq<Entry>, pred: spec_fn(Entry) -> bool)
    requires
        unique_keys(s),
    ensures
        unique_keys(s.filter(pred)),
        forall|e: Entry| #[trigger] s.filter(pred).contains(e) <==> s.contains(e) && pred(e),
    decreases s.len(),
{
    broadcast use vstd::seq_lib::group_filter_ensures;

    if s.len() == 0 {
    } else {
        let rest = s.drop_last();
        lemma_filter_entries(rest, pred);
        rest.lemma_filter_push(s.last(), pred);
        assert(rest.push(s.last()) =~= s);
        let f = s.filter(pred);
        let fr = rest.filter(pred);
        if pred(s.last()) {
            assert(f == fr.push(s.last()));
            assert(unique_keys(f)) by {
                assert forall|i: int, j: int| 0 <= i < j < f.len() implies f[i].0 != f[j].0 by {
                    if j < f.len() - 1 {
                        assert(fr[i].0 != fr[j].0);
                    } else {
                        assert(fr.contains(fr[i]));
                        assert(rest.contains(fr[i]) && pred(fr[i]));
                        let k = choose|k: int| 0 <= k < rest.len() && rest[k] == fr[i];
                        assert(s[k] == fr[i]);
                        assert(s[k].0 != s[s.len() - 1].0);
                    }
                }
            }
            assert forall|e: Entry| #[trigger] f.contains(e) <==> s.contains(e) && pred(e) by {
                if f.contains(e) {
                    let k = choose|k: int| 0 <= k < f.len() && f[k] == e;
                    if k < f.len() - 1 {
                        assert(fr.contains(e));
                        let m = choose|m: int| 0 <= m < rest.len() && rest[m] == e;
                        assert(s[m] == e);
                        assert(s.contains(e));
                    } else {
                        assert(e == s.last());
                        assert(s[s.len() - 1] == e);
                        assert(s.contains(e));
                    }
                }
                if s.contains(e) && pred(e) {
                    let k = choose|k: int| 0 <= k < s.len() && s[k] == e;
                    if k < s.len() - 1 {
                        assert(rest[k] == e);
                        assert(rest.contains(e));
                        assert(fr.contains(e));
                        let m = choose|m: int| 0 <= m < fr.len() && fr[m] == e;
                        assert(f[m] == e);
                        assert(f.contains(e));
                    } else {
                        assert(f[f.len() - 1] == e);
                        assert(f.contains(e));
                    }
                }
            }
        } else {
            assert(f == fr);
            assert forall|e: Entry| #[trigger] f.contains(e) <==> s.contains(e) && pred(e) by {
                if f.contains(e) {
                    assert(rest.contains(e) && pred(e));
                    let m = choose|m: int| 0 <= m < rest.len() && rest[m] == e;
                    assert(s[m] == e);
                    assert(s.contains(e));
                }
                if s.contains(e) && pred(e) {
                    let k = choose|k: int| 0 <= k < s.len() && s[k] == e;
                    if k < s.len() - 1 {
                        assert(rest[k] == e);
                        assert(rest.contains(e));
                    } else {
                        assert(e == s.last());
                    }
                }
            }
        }
    }
}

} // verus!
