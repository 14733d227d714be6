//! Working out where the slots of a grid cross.

use crate::grid_config::{
    entry_cell, entry_fits, Crossing, CrossingId, Direction, GridCoord, SlotConfig, SlotId, SlotSpec,
};
use vstd::prelude::*;

verus! {

/// The entry `e` has a cell `c`.
pub open spec fn has_cell(entries: Seq<SlotSpec>, e: int, c: int) -> bool {
    0 <= e < entries.len() && 0 <= c < entries[e].length
}

/// The location of a cell of an entry.
pub open spec fn location(entries: Seq<SlotSpec>, e: int, c: int) -> (int, int) {
    entry_cell(entries[e].start_cell, entries[e].direction, c)
}

/// The cell `c` of the entry `e` is the cell `d` of another entry `f`.
pub open spec fn shares(entries: Seq<SlotSpec>, e: int, c: int, f: int, d: int) -> bool {
    &&& e != f
    &&& has_cell(entries, e, c)
    &&& has_cell(entries, f, d)
    &&& location(entries, e, c) == location(entries, f, d)
}

/// No more than two entries meet in a cell.
pub open spec fn is_planar(entries: Seq<SlotSpec>) -> bool {
    forall|e: int, c: int, f: int, d: int, g: int, h: int| #[trigger]
        shares(entries, e, c, f, d) && #[trigger] shares(entries, e, c, g, h) ==> f == g && d == h
}

/// Every entry can be represented.
pub open spec fn entries_fit(entries: Seq<SlotSpec>) -> bool {
    forall|e: int|
        0 <= e < entries.len() ==> entry_fits(
            (#[trigger] entries[e]).start_cell,
            entries[e].direction,
            entries[e].length as int,
        )
}

/// The cell `c` of `e` crosses an entry that comes later in the list, so this crossing is met here
/// for the first time.
pub open spec fn opens(entries: Seq<SlotSpec>, e: int, c: int) -> bool {
    exists|f: int, d: int| e < f && #[trigger] shares(entries, e, c, f, d)
}

/// The first `cells` cells of `e` that open a crossing.
pub open spec fn openings_in(entries: Seq<SlotSpec>, e: int, cells: int) -> Seq<(int, int)>
    decreases cells,
{
    if cells <= 0 {
        Seq::empty()
    } else if opens(entries, e, cells - 1) {
        openings_in(entries, e, cells - 1).push((e, cells - 1))
    } else {
        openings_in(entries, e, cells - 1)
    }
}

/// The cells that open a crossing in the entries before `e`.
pub open spec fn openings_before(entries: Seq<SlotSpec>, e: int) -> Seq<(int, int)>
    decreases e,
{
    if e <= 0 {
        Seq::empty()
    } else {
        openings_before(entries, e - 1) + openings_in(
            entries,
            e - 1,
            entries[e - 1].length as int,
        )
    }
}

/// The cells that open a crossing before the cell `c` of `e`, going through the entries in order.
pub open spec fn openings_to(entries: Seq<SlotSpec>, e: int, c: int) -> Seq<(int, int)> {
    openings_before(entries, e) + openings_in(entries, e, c)
}

/// The entry `f` meets the entry `e` in the cell `d` of `f`.
pub open spec fn meets(entries: Seq<SlotSpec>, f: int, d: int, e: int) -> bool {
    exists|c: int| #[trigger] shares(entries, f, d, e, c)
}

/// The first cell of `f` that is a cell of `e`.
pub open spec fn is_first_meeting(entries: Seq<SlotSpec>, f: int, d: int, e: int) -> bool {
    meets(entries, f, d, e) && forall|k: int| 0 <= k < d ==> !#[trigger] meets(entries, f, k, e)
}

/// Crossings are numbered in the order in which they are opened. The other entry of a crossing uses
/// the number under which it was opened, or if the two entries meet more than once, the first such
/// number.
pub open spec fn is_crossing_id(
    entries: Seq<SlotSpec>,
    e: int,
    c: int,
    f: int,
    id: CrossingId,
) -> bool {
    if e < f {
        id == openings_to(entries, e, c).len()
    } else {
        exists|d: int| #[trigger]
            is_first_meeting(entries, f, d, e) && id == openings_to(entries, f, d).len()
    }
}

/// The number of crossings.
pub open spec fn crossing_count(entries: Seq<SlotSpec>) -> nat {
    openings_before(entries, entries.len() as int).len()
}

/// What is to be recorded for a cell.
pub open spec fn is_crossing(
    entries: Seq<SlotSpec>,
    e: int,
    c: int,
    crossing: Option<Crossing>,
) -> bool {
    match crossing {
        Some(crossing) => shares(
            entries,
            e,
            c,
            crossing.other_slot_id as int,
            crossing.other_slot_cell as int,
        ) && is_crossing_id(
            entries,
            e,
            c,
            crossing.other_slot_id as int,
            crossing.crossing_id,
        ),
        None => forall|f: int, d: int| !#[trigger] shares(entries, e, c, f, d),
    }
}

/// The slot config is that of the entry `e`.
pub open spec fn is_slot_config(entries: Seq<SlotSpec>, e: int, config: SlotConfig) -> bool {
    &&& config.id == e
    &&& config.identity() == entries[e]
    &&& config.min_score_override is None
    &&& config.filter_pattern is None
    &&& config.crossings@.len() == config.length
    &&& forall|c: int|
        0 <= c < config.length ==> is_crossing(entries, e, c, #[trigger] config.crossings@[c])
}

/// The openings in an entry are in order and belong to it.
proof fn lemma_openings_in(entries: Seq<SlotSpec>, e: int, cells: int)
    ensures
        forall|k: int|
            0 <= k < openings_in(entries, e, cells).len() ==> {
                let at = #[trigger] openings_in(entries, e, cells)[k];
                at.0 == e && 0 <= at.1 < cells && opens(entries, e, at.1)
            },
        forall|k: int, m: int|
            0 <= k < m < openings_in(entries, e, cells).len() ==> openings_in(
                entries,
                e,
                cells,
            )[k].1 < openings_in(entries, e, cells)[m].1,
    decreases cells,
{
    if cells > 0 {
        lemma_openings_in(entries, e, cells - 1);
        let front = openings_in(entries, e, cells - 1);
        let all = openings_in(entries, e, cells);
        assert forall|k: int| 0 <= k < all.len() implies {
            let at = #[trigger] all[k];
            at.0 == e && 0 <= at.1 < cells && opens(entries, e, at.1)
        } by {
            if k < front.len() {
                assert(all[k] == front[k]);
            }
        }
        assert forall|k: int, m: int| 0 <= k < m < all.len() implies all[k].1 < all[m].1 by {
            assert(all[k] == front[k]);
            if m < front.len() {
                assert(all[m] == front[m]);
            }
        }
    }
}

/// The pair `left` comes before `right`.
pub open spec fn comes_before(left: (int, int), right: (int, int)) -> bool {
    left.0 < right.0 || (left.0 == right.0 && left.1 < right.1)
}

/// The openings in the entries before `e` are in order and belong to these entries.
proof fn lemma_openings_before(entries: Seq<SlotSpec>, e: int)
    ensures
        forall|k: int|
            0 <= k < openings_before(entries, e).len() ==> {
                let at = #[trigger] openings_before(entries, e)[k];
                0 <= at.0 < e && opens(entries, at.0, at.1)
            },
        forall|k: int, m: int|
            0 <= k < m < openings_before(entries, e).len() ==> #[trigger] comes_before(
                openings_before(entries, e)[k],
                openings_before(entries, e)[m],
            ),
    decreases e,
{
    if e > 0 {
        lemma_openings_before(entries, e - 1);
        lemma_openings_in(entries, e - 1, entries[e - 1].length as int);
        let earlier = openings_before(entries, e - 1);
        let last = openings_in(entries, e - 1, entries[e - 1].length as int);
        let all = openings_before(entries, e);
        assert forall|k: int, m: int| 0 <= k < m < all.len() implies #[trigger] comes_before(
            all[k],
            all[m],
        ) by {
            if m < earlier.len() {
                assert(comes_before(earlier[k], earlier[m]));
            } else if k < earlier.len() {
                assert(earlier[k].0 < e - 1);
                assert(last[m - earlier.len()].0 == e - 1);
            } else {
                assert(last[k - earlier.len()].1 < last[m - earlier.len()].1);
                assert(last[k - earlier.len()].0 == e - 1 && last[m - earlier.len()].0 == e - 1);
            }
        }
    }
}

/// The openings up to a cell are in order and come before it.
proof fn lemma_openings_to(entries: Seq<SlotSpec>, e: int, c: int)
    requires
        0 <= e,
    ensures
        forall|k: int|
            0 <= k < openings_to(entries, e, c).len() ==> {
                let at = #[trigger] openings_to(entries, e, c)[k];
                comes_before(at, (e, c)) && opens(entries, at.0, at.1)
            },
        forall|k: int, m: int|
            0 <= k < m < openings_to(entries, e, c).len() ==> #[trigger] comes_before(
                openings_to(entries, e, c)[k],
                openings_to(entries, e, c)[m],
            ),
{
    lemma_openings_before(entries, e);
    lemma_openings_in(entries, e, c);
    let earlier = openings_before(entries, e);
    let last = openings_in(entries, e, c);
    let all = openings_to(entries, e, c);
    assert forall|k: int| 0 <= k < all.len() implies {
        let at = #[trigger] all[k];
        comes_before(at, (e, c)) && opens(entries, at.0, at.1)
    } by {
        if k < earlier.len() {
            assert(all[k] == earlier[k]);
        } else {
            assert(all[k] == last[k - earlier.len()]);
        }
    }
    assert forall|k: int, m: int| 0 <= k < m < all.len() implies #[trigger] comes_before(
        all[k],
        all[m],
    ) by {
        if m < earlier.len() {
            assert(comes_before(earlier[k], earlier[m]));
        } else if k < earlier.len() {
            assert(earlier[k].0 < e);
            assert(last[m - earlier.len()].0 == e);
        } else {
            assert(last[k - earlier.len()].1 < last[m - earlier.len()].1);
            assert(last[k - earlier.len()].0 == e && last[m - earlier.len()].0 == e);
        }
    }
}

/// Fewer cells of an entry have fewer openings.
proof fn lemma_prefix_in(entries: Seq<SlotSpec>, e: int, few: int, many: int)
    requires
        few <= many,
    ensures
        openings_in(entries, e, few).is_prefix_of(openings_in(entries, e, many)),
    decreases many - few,
{
    if few < many {
        lemma_prefix_in(entries, e, few, many - 1);
    }
}

/// Fewer entries have fewer openings.
proof fn lemma_prefix_before(entries: Seq<SlotSpec>, few: int, many: int)
    requires
        0 <= few <= many,
    ensures
        openings_before(entries, few).is_prefix_of(openings_before(entries, many)),
    decreases many - few,
{
    if few < many {
        lemma_prefix_before(entries, few, many - 1);
    }
}

/// An opening is found at its number among the openings up to a later cell.
proof fn lemma_opening_at(entries: Seq<SlotSpec>, f: int, d: int, e: int, c: int)
    requires
        0 <= f,
        0 <= d,
        0 <= c,
        opens(entries, f, d),
        f < entries.len(),
        d < entries[f].length,
        comes_before((f, d), (e, c)),
    ensures
        openings_to(entries, f, d).len() < openings_to(entries, e, c).len(),
        openings_to(entries, e, c)[openings_to(entries, f, d).len() as int] == (f, d),
{
    let number = openings_to(entries, f, d).len() as int;
    let next = openings_in(entries, f, d + 1);
    assert(next == openings_in(entries, f, d).push((f, d)));
    if f == e {
        lemma_prefix_in(entries, f, d + 1, c);
        let all = openings_in(entries, e, c);
        assert(all[next.len() - 1] == next[next.len() - 1]);
    } else {
        lemma_prefix_in(entries, f, d + 1, entries[f].length as int);
        let within = openings_in(entries, f, entries[f].length as int);
        assert(within[next.len() - 1] == next[next.len() - 1]);
        lemma_prefix_before(entries, f + 1, e);
        let upto = openings_before(entries, f + 1);
        assert(upto == openings_before(entries, f) + within);
        assert(upto[number] == (f, d));
        assert(openings_before(entries, e)[number] == upto[number]);
    }
}

/// All openings are found before the end of the list.
proof fn lemma_opening_counted(entries: Seq<SlotSpec>, f: int, d: int)
    requires
        has_cell(entries, f, d),
        opens(entries, f, d),
    ensures
        openings_to(entries, f, d).len() < crossing_count(entries),
        openings_before(entries, entries.len() as int)[openings_to(entries, f, d).len() as int] == (
            f,
            d,
        ),
{
    let n = entries.len() as int;
    lemma_opening_at(entries, f, d, n, 0);
    assert(openings_to(entries, n, 0) =~= openings_before(entries, n));
}

/// Two entries that meet do so in either order.
proof fn lemma_shares_symmetric(entries: Seq<SlotSpec>, e: int, c: int, f: int, d: int)
    requires
        shares(entries, e, c, f, d),
    ensures
        shares(entries, f, d, e, c),
{
}

/// Crossing ids are smaller than the number of crossings.
pub proof fn lemma_crossing_id_bound(
    entries: Seq<SlotSpec>,
    e: int,
    c: int,
    f: int,
    d: int,
    id: CrossingId,
)
    requires
        shares(entries, e, c, f, d),
        is_crossing_id(entries, e, c, f, id),
    ensures
        id < crossing_count(entries),
{
    if e < f {
        lemma_opening_counted(entries, e, c);
    } else {
        let k = choose|k: int| #[trigger]
            is_first_meeting(entries, f, k, e) && id == openings_to(entries, f, k).len();
        let m = choose|m: int| #[trigger] shares(entries, f, k, e, m);
        lemma_opening_counted(entries, f, k);
    }
}

/// The entries meet in no other cell.
pub open spec fn meet_once(entries: Seq<SlotSpec>, e: int, c: int, f: int, d: int) -> bool {
    forall|m: int, k: int| #[trigger] shares(entries, e, m, f, k) ==> m == c && k == d
}

/// Both entries of a crossing give it the same id, if they meet in no other cell.
pub proof fn lemma_crossing_id_symmetric(
    entries: Seq<SlotSpec>,
    e: int,
    c: int,
    f: int,
    d: int,
    id: CrossingId,
    other_id: CrossingId,
)
    requires
        shares(entries, e, c, f, d),
        meet_once(entries, e, c, f, d),
        is_crossing_id(entries, e, c, f, id),
        is_crossing_id(entries, f, d, e, other_id),
    ensures
        id == other_id,
{
    if e < f {
        let k = choose|k: int| #[trigger]
            is_first_meeting(entries, e, k, f) && other_id == openings_to(entries, e, k).len();
        let m = choose|m: int| #[trigger] shares(entries, e, k, f, m);
        assert(k == c);
    } else {
        let k = choose|k: int| #[trigger]
            is_first_meeting(entries, f, k, e) && id == openings_to(entries, f, k).len();
        let m = choose|m: int| #[trigger] shares(entries, f, k, e, m);
        lemma_shares_symmetric(entries, f, k, e, m);
        assert(k == d);
    }
}

/// Crossings of different cells have different ids, as seen from the entries that come first in the
/// list.
pub proof fn lemma_crossing_id_distinct(
    entries: Seq<SlotSpec>,
    e: int,
    c: int,
    f: int,
    d: int,
    g: int,
    h: int,
    i: int,
    j: int,
    id: CrossingId,
)
    requires
        shares(entries, e, c, f, d),
        e < f,
        is_crossing_id(entries, e, c, f, id),
        shares(entries, g, h, i, j),
        g < i,
        is_crossing_id(entries, g, h, i, id),
    ensures
        e == g,
        c == h,
{
    lemma_opening_counted(entries, e, c);
    lemma_opening_counted(entries, g, h);
}

/// Find the cell of an entry that is at a location.
fn cell_at(entry: &SlotSpec, loc: GridCoord) -> (cell: Option<usize>)
    requires
        entry_fits(entry.start_cell, entry.direction, entry.length as int),
    ensures
        match cell {
            Some(cell) => cell < entry.length && entry_cell(
                entry.start_cell,
                entry.direction,
                cell as int,
            ) == (loc.0 as int, loc.1 as int),
            None => forall|c: int|
                0 <= c < entry.length ==> #[trigger] entry_cell(
                    entry.start_cell,
                    entry.direction,
                    c,
                ) != (loc.0 as int, loc.1 as int),
        },
{
    let (x, y): GridCoord = entry.start_cell;
    match entry.direction {
        Direction::Across => {
            if loc.1 == y && x <= loc.0 && loc.0 - x < entry.length {
                Some(loc.0 - x)
            } else {
                None
            }
        },
        Direction::Down => {
            if loc.0 == x && y <= loc.1 && loc.1 - y < entry.length {
                Some(loc.1 - y)
            } else {
                None
            }
        },
    }
}

/// Find the other entry with a cell at the location of a cell of an entry.
fn find_other(entries: &[SlotSpec], e: usize, Ghost(c): Ghost<int>, loc: GridCoord) -> (other:
    Option<(SlotId, usize)>)
    requires
        entries_fit(entries@),
        has_cell(entries@, e as int, c),
        location(entries@, e as int, c) == (loc.0 as int, loc.1 as int),
    ensures
        match other {
            Some((f, d)) => shares(entries@, e as int, c, f as int, d as int),
            None => forall|f: int, d: int| !#[trigger] shares(entries@, e as int, c, f, d),
        },
{
    let mut f: usize = 0;
    while f < entries.len()
        invariant
            entries_fit(entries@),
            has_cell(entries@, e as int, c),
            location(entries@, e as int, c) == (loc.0 as int, loc.1 as int),
            0 <= f <= entries@.len(),
            forall|g: int, d: int|
                0 <= g < f ==> !#[trigger] shares(entries@, e as int, c, g, d),
        decreases entries@.len() - f,
    {
        if f != e {
            let entry: &SlotSpec = &entries[f];
            if let Some(d) = cell_at(entry, loc) {
                return Some((f, d));
            }
            proof {
                assert forall|d: int| !#[trigger] shares(entries@, e as int, c, f as int, d) by {
                    if shares(entries@, e as int, c, f as int, d) {
                        assert(entry_cell(entry.start_cell, entry.direction, d) == (
                            loc.0 as int,
                            loc.1 as int,
                        ));
                    }
                }
            }
        }
        f = f + 1;
    }
    None
}

/// The crossings that were opened, as the other entry and the one where it was opened.
spec fn cache_matches(
    entries: Seq<SlotSpec>,
    openings: Seq<(int, int)>,
    cache: Seq<(SlotId, SlotId)>,
) -> bool {
    &&& cache.len() == openings.len()
    &&& forall|k: int|
        0 <= k < cache.len() ==> (#[trigger] cache[k]).1 == openings[k].0 && meets(
            entries,
            openings[k].0,
            openings[k].1,
            cache[k].0 as int,
        )
}

/// Find the position of a pair.
fn find_pair(cache: &Vec<(SlotId, SlotId)>, left: SlotId, right: SlotId) -> (position: Option<usize>)
    ensures
        match position {
            Some(position) => {
                &&& position < cache@.len()
                &&& cache@[position as int] == (left, right)
                &&& forall|k: int| 0 <= k < position ==> #[trigger] cache@[k] != (left, right)
            },
            None => forall|k: int| 0 <= k < cache@.len() ==> #[trigger] cache@[k] != (left, right),
        },
{
    let mut k: usize = 0;
    while k < cache.len()
        invariant
            0 <= k <= cache@.len(),
            forall|m: int| 0 <= m < k ==> #[trigger] cache@[m] != (left, right),
        decreases cache@.len() - k,
    {
        if cache[k].0 == left && cache[k].1 == right {
            return Some(k);
        }
        k = k + 1;
    }
    None
}

/// The first cell in which two entries meet.
proof fn lemma_first_meeting(entries: Seq<SlotSpec>, f: int, d: int, e: int) -> (first: int)
    requires
        meets(entries, f, d, e),
        0 <= d,
    ensures
        is_first_meeting(entries, f, first, e),
        0 <= first <= d,
    decreases d,
{
    if forall|k: int| 0 <= k < d ==> !#[trigger] meets(entries, f, k, e) {
        d
    } else {
        let k = choose|k: int| 0 <= k < d && #[trigger] meets(entries, f, k, e);
        lemma_first_meeting(entries, f, k, e)
    }
}

/// What the cache holds for a pair of entries.
proof fn lemma_cache(
    entries: Seq<SlotSpec>,
    cache: Seq<(SlotId, SlotId)>,
    e: SlotId,
    c: int,
    f: SlotId,
    d: int,
)
    requires
        is_planar(entries),
        shares(entries, e as int, c, f as int, d),
        cache_matches(entries, openings_to(entries, e as int, c), cache),
    ensures
        e < f ==> !cache.contains((e, f)),
        f < e ==> exists|first: int| #[trigger]
            is_first_meeting(entries, f as int, first, e as int) && {
                let position = openings_to(entries, f as int, first).len() as int;
                &&& position < cache.len()
                &&& cache[position] == (e, f)
                &&& forall|k: int| 0 <= k < position ==> #[trigger] cache[k] != (e, f)
            },
{
    let openings = openings_to(entries, e as int, c);
    lemma_openings_to(entries, e as int, c);
    if e < f {
        if cache.contains((e, f)) {
            let k = cache.index_of((e, f));
            assert(cache[k].1 == openings[k].0);
            assert(comes_before(openings[k], (e as int, c)));
        }
    } else {
        lemma_shares_symmetric(entries, e as int, c, f as int, d);
        assert(meets(entries, f as int, d, e as int));
        let first = lemma_first_meeting(entries, f as int, d, e as int);
        let m = choose|m: int| #[trigger] shares(entries, f as int, first, e as int, m);
        lemma_opening_at(entries, f as int, first, e as int, c);
        let position = openings_to(entries, f as int, first).len() as int;
        assert(openings[position] == (f as int, first));
        assert(cache[position].1 == f);
        let g = cache[position].0 as int;
        let h = choose|h: int| #[trigger] shares(entries, f as int, first, g, h);
        assert(g == e);
        assert(cache[position] == (e, f));
        assert forall|k: int| 0 <= k < position implies #[trigger] cache[k] != (e, f) by {
            if cache[k] == (e, f) {
                assert(openings[k].0 == f);
                assert(meets(entries, f as int, openings[k].1, e as int));
                assert(comes_before(openings[k], openings[position]));
                let o = choose|o: int| #[trigger]
                    shares(entries, f as int, openings[k].1, e as int, o);
                assert(0 <= openings[k].1 < first);
            }
        }
    }
}

/// Work out the crossings of one entry.
fn crossings_of(
    entries: &[SlotSpec],
    e: usize,
    cache: &mut Vec<(SlotId, SlotId)>,
) -> (crossings: Vec<Option<Crossing>>)
    requires
        entries_fit(entries@),
        is_planar(entries@),
        e < entries@.len(),
        cache_matches(entries@, openings_before(entries@, e as int), old(cache)@),
    ensures
        cache_matches(entries@, openings_before(entries@, e + 1), final(cache)@),
        crossings@.len() == entries@[e as int].length,
        forall|c: int|
            0 <= c < crossings@.len() ==> is_crossing(
                entries@,
                e as int,
                c,
                #[trigger] crossings@[c],
            ),
{
    let entry: &SlotSpec = &entries[e];
    let coords: Vec<GridCoord> = entry.cell_coords();
    let mut crossings: Vec<Option<Crossing>> = Vec::new();
    let mut c: usize = 0;
    proof {
        assert(openings_to(entries@, e as int, 0) =~= openings_before(entries@, e as int));
    }
    while c < coords.len()
        invariant
            entries_fit(entries@),
            is_planar(entries@),
            e < entries@.len(),
            entry == entries@[e as int],
            coords@.len() == entry.length,
            forall|k: int|
                0 <= k < coords@.len() ==> {
                    let coord = #[trigger] coords@[k];
                    (coord.0 as int, coord.1 as int) == location(entries@, e as int, k)
                },
            0 <= c <= coords@.len(),
            crossings@.len() == c,
            forall|k: int|
                0 <= k < c ==> is_crossing(entries@, e as int, k, #[trigger] crossings@[k]),
            cache_matches(entries@, openings_to(entries@, e as int, c as int), cache@),
        decreases coords@.len() - c,
    {
        let loc: GridCoord = coords[c];
        let ghost before = openings_to(entries@, e as int, c as int);
        let ghost after = openings_to(entries@, e as int, c + 1);
        match find_other(entries, e, Ghost(c as int), loc) {
            None => {
                assert(!opens(entries@, e as int, c as int));
                crossings.push(None);
            },
            Some((other_slot_id, other_slot_cell)) => {
                proof {
                    lemma_cache(
                        entries@,
                        cache@,
                        e,
                        c as int,
                        other_slot_id,
                        other_slot_cell as int,
                    );
                }
                // If `(current_slot_id, crossing_slot_id)` is in the cache, this crossing has been
                // seen from the other side, so use its index. If not, use the next id and push
                // `(crossing_slot_id, current_id)` so that we can reuse it when we see the crossing
                // from the other side.
                let crossing_id: CrossingId = match find_pair(cache, e, other_slot_id) {
                    Some(found) => {
                        proof {
                            if e < other_slot_id {
                                assert(cache@.contains((e, other_slot_id)));
                            }
                            assert(!opens(entries@, e as int, c as int)) by {
                                if opens(entries@, e as int, c as int) {
                                    let (f, d) = choose|f: int, d: int|
                                        e < f && #[trigger] shares(
                                            entries@,
                                            e as int,
                                            c as int,
                                            f,
                                            d,
                                        );
                                    assert(f == other_slot_id);
                                }
                            }
                            assert(after == before);
                        }
                        found
                    },
                    None => {
                        let crossing_id: CrossingId = cache.len();
                        let ghost was = cache@;
                        cache.push((other_slot_id, e));
                        proof {
                            assert(e < other_slot_id) by {
                                if other_slot_id < e {
                                    let first = choose|first: int| #[trigger]
                                        is_first_meeting(
                                            entries@,
                                            other_slot_id as int,
                                            first,
                                            e as int,
                                        ) && {
                                            let position = openings_to(
                                                entries@,
                                                other_slot_id as int,
                                                first,
                                            ).len() as int;
                                            &&& position < was.len()
                                            &&& was[position] == (e, other_slot_id)
                                        };
                                    assert(was[openings_to(
                                        entries@,
                                        other_slot_id as int,
                                        first,
                                    ).len() as int] == (e, other_slot_id));
                                }
                            }
                            assert(opens(entries@, e as int, c as int));
                            assert(after =~= before.push((e as int, c as int)));
                            assert(meets(entries@, e as int, c as int, other_slot_id as int));
                        }
                        crossing_id
                    },
                };
                crossings.push(Some(Crossing { other_slot_id, other_slot_cell, crossing_id }));
            },
        }
        c = c + 1;
    }
    crossings
}

/// Given `SlotSpec` structs specifying the positions of the slots in a grid, generate `SlotConfig`s
/// containing derived information about crossings, and the number of distinct crossings.
pub fn generate_slot_configs(entries: &[SlotSpec]) -> (result: (Vec<SlotConfig>, usize))
    requires
        entries_fit(entries@),
        is_planar(entries@),
    ensures
        result.0@.len() == entries@.len(),
        forall|e: int|
            0 <= e < entries@.len() ==> is_slot_config(entries@, e, #[trigger] result.0@[e]),
        result.1 == crossing_count(entries@),
{
    let mut slot_configs: Vec<SlotConfig> = Vec::new();
    let mut cache: Vec<(SlotId, SlotId)> = Vec::new();
    let mut e: usize = 0;
    while e < entries.len()
        invariant
            entries_fit(entries@),
            is_planar(entries@),
            0 <= e <= entries@.len(),
            slot_configs@.len() == e,
            forall|k: int|
                0 <= k < e ==> is_slot_config(entries@, k, #[trigger] slot_configs@[k]),
            cache_matches(entries@, openings_before(entries@, e as int), cache@),
        decreases entries@.len() - e,
    {
        let crossings: Vec<Option<Crossing>> = crossings_of(entries, e, &mut cache);
        let entry: SlotSpec = entries[e];
        slot_configs.push(
            SlotConfig {
                id: e,
                start_cell: entry.start_cell,
                direction: entry.direction,
                length: entry.length,
                crossings,
                min_score_override: None,
                filter_pattern: None,
            },
        );
        e = e + 1;
    }
    let count: usize = cache.len();
    (slot_configs, count)
}

} // verus!
