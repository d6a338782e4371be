//! The spatial grid index: cell key to the ids of the points in that cell.
use crate::coords::{cell_key, cell_of, valid_point};
use crate::fxmap::{cell_get, cell_insert, cell_map_new, cell_remove, cells_view, CellMap};
use crate::model::{place_cell, places_in_range, CompactPlace};
use vstd::prelude::*;

verus! {

/// The ids below `n` whose point lies in cell `c`, in increasing order.
pub open spec fn ids_in_cell(pts: Seq<(i32, i32)>, c: (i16, i16), n: nat) -> Seq<u32>
    decreases n,
{
    if n == 0 {
        Seq::empty()
    } else {
        let prev = ids_in_cell(pts, c, (n - 1) as nat);
        let p = pts[n - 1];
        if cell_of(p.0 as int, p.1 as int) == c {
            prev.push((n - 1) as u32)
        } else {
            prev
        }
    }
}

/// The grid over the first `n` points: each occupied cell maps to its ids.
pub open spec fn grid_upto(pts: Seq<(i32, i32)>, n: nat) -> Map<(i16, i16), Seq<u32>> {
    Map::new(
        |c: (i16, i16)|
            exists|i: int| 0 <= i < n && #[trigger] cell_of(pts[i].0 as int, pts[i].1 as int) == c,
        |c: (i16, i16)| ids_in_cell(pts, c, n),
    )
}

/// The grid over all points.
pub open spec fn grid_of(pts: Seq<(i32, i32)>) -> Map<(i16, i16), Seq<u32>> {
    grid_upto(pts, pts.len())
}

/// The position of each record.
pub open spec fn points_of(places: Seq<CompactPlace>) -> Seq<(i32, i32)> {
    places.map_values(|p: CompactPlace| (p.lat, p.lon))
}

/// Every point lies in the valid coordinate range.
pub open spec fn points_in_range(pts: Seq<(i32, i32)>) -> bool {
    forall|i: int| 0 <= i < pts.len() ==> valid_point(#[trigger] pts[i].0, pts[i].1)
}

proof fn lemma_ids_in_cell_bounds(pts: Seq<(i32, i32)>, c: (i16, i16), n: nat)
    requires
        n <= pts.len(),
        n <= u32::MAX + 1,
    ensures
        forall|j: int|
            0 <= j < ids_in_cell(pts, c, n).len() ==> #[trigger] ids_in_cell(pts, c, n)[j] < n
                && cell_of(
                pts[ids_in_cell(pts, c, n)[j] as int].0 as int,
                pts[ids_in_cell(pts, c, n)[j] as int].1 as int,
            ) == c,
        forall|j: int, k: int|
            0 <= j < k < ids_in_cell(pts, c, n).len() ==> ids_in_cell(pts, c, n)[j]
                < ids_in_cell(pts, c, n)[k],
    decreases n,
{
    if n > 0 {
        lemma_ids_in_cell_bounds(pts, c, (n - 1) as nat);
        let prev = ids_in_cell(pts, c, (n - 1) as nat);
        let s = ids_in_cell(pts, c, n);
        if cell_of(pts[n - 1].0 as int, pts[n - 1].1 as int) == c {
            assert(s == prev.push((n - 1) as u32));
            assert forall|j: int| 0 <= j < s.len() implies #[trigger] s[j] < n && cell_of(
                pts[s[j] as int].0 as int,
                pts[s[j] as int].1 as int,
            ) == c by {
                if j < prev.len() {
                    assert(s[j] == prev[j]);
                }
            }
            assert forall|j: int, k: int| 0 <= j < k < s.len() implies s[j] < s[k] by {
                if k < prev.len() {
                    assert(s[j] == prev[j] && s[k] == prev[k]);
                } else {
                    assert(s[j] == prev[j]);
                }
            }
        } else {
            assert(s == prev);
        }
    }
}

proof fn lemma_ids_in_cell_empty(pts: Seq<(i32, i32)>, c: (i16, i16), n: nat)
    requires
        n <= pts.len(),
        forall|w: int| 0 <= w < n ==> #[trigger] cell_of(pts[w].0 as int, pts[w].1 as int) != c,
    ensures
        ids_in_cell(pts, c, n) == Seq::<u32>::empty(),
    decreases n,
{
    if n > 0 {
        lemma_ids_in_cell_empty(pts, c, (n - 1) as nat);
        assert(cell_of(pts[n - 1].0 as int, pts[n - 1].1 as int) != c);
    }
}

proof fn lemma_ids_in_cell_complete(pts: Seq<(i32, i32)>, c: (i16, i16), n: nat, i: int)
    requires
        n <= pts.len(),
        n <= u32::MAX + 1,
        0 <= i < n,
        cell_of(pts[i].0 as int, pts[i].1 as int) == c,
    ensures
        ids_in_cell(pts, c, n).contains(i as u32),
    decreases n,
{
    if i < n - 1 {
        lemma_ids_in_cell_complete(pts, c, (n - 1) as nat, i);
        let prev = ids_in_cell(pts, c, (n - 1) as nat);
        let j = choose|j: int| 0 <= j < prev.len() && prev[j] == i as u32;
        assert(ids_in_cell(pts, c, n)[j] == i as u32);
    } else {
        let s = ids_in_cell(pts, c, n);
        assert(s[s.len() - 1] == i as u32);
    }
}

/// Builds the grid over a list of points: the id of each point is appended
/// to the list of its cell, in order.
pub fn index_points(pts: &Vec<(i32, i32)>) -> (g: CellMap<Vec<u32>>)
    requires
        points_in_range(pts@),
        pts.len() <= u32::MAX + 1,
    ensures
        cells_view(g@) == grid_of(pts@),
{
    let mut g: CellMap<Vec<u32>> = cell_map_new();
    let n = pts.len();
    let mut i: usize = 0;
    assert(cells_view(g@) =~= grid_upto(pts@, 0));
    while i < n
        invariant
            n == pts.len(),
            i <= n,
            n <= u32::MAX + 1,
            points_in_range(pts@),
            cells_view(g@) == grid_upto(pts@, i as nat),
        decreases n - i,
    {
        let (lat, lon) = pts[i];
        assert(valid_point(pts@[i as int].0, pts@[i as int].1));
        let key = cell_key(lat, lon);
        let ghost start = g@;
        let mut ids = match cell_remove(&mut g, key) {
            Some(v) => v,
            None => Vec::new(),
        };
        proof {
            if start.contains_key(key) {
                assert(cells_view(start)[key] == start[key]@);
            } else {
                assert(!grid_upto(pts@, i as nat).contains_key(key));
                lemma_ids_in_cell_empty(pts@, key, i as nat);
            }
        }
        assert(ids@ == ids_in_cell(pts@, key, i as nat));
        ids.push(i as u32);
        cell_insert(&mut g, key, ids);
        proof {
            let next = grid_upto(pts@, (i + 1) as nat);
            assert forall|c: (i16, i16)| #[trigger] next.contains_key(c) implies cells_view(
                g@,
            ).contains_key(c) by {
                if c != key {
                    let w = choose|w: int|
                        0 <= w < i + 1 && #[trigger] cell_of(pts@[w].0 as int, pts@[w].1 as int)
                            == c;
                    assert(w < i);
                    assert(grid_upto(pts@, i as nat).contains_key(c));
                }
            }
            assert forall|c: (i16, i16)| #[trigger] cells_view(g@).contains_key(c) implies next.contains_key(
                c,
            ) by {
                if c != key {
                    assert(grid_upto(pts@, i as nat).contains_key(c));
                    let w = choose|w: int|
                        0 <= w < i && #[trigger] cell_of(pts@[w].0 as int, pts@[w].1 as int) == c;
                    assert(0 <= w < i + 1);
                } else {
                    assert(cell_of(pts@[i as int].0 as int, pts@[i as int].1 as int) == c);
                }
            }
            assert forall|c: (i16, i16)| #[trigger] next.contains_key(c) implies cells_view(g@)[c]
                == next[c] by {
                if c != key {
                    assert(start.contains_key(c));
                    assert(cells_view(start)[c] == start[c]@);
                    assert(g@[c] == start[c]);
                    assert(next[c] == ids_in_cell(pts@, c, i as nat));
                } else {
                    assert(g@[c] == ids);
                }
            }
            assert(cells_view(g@) =~= next);
        }
        i = i + 1;
    }
    g
}

/// Builds the grid index of a record array: each record id is appended to
/// the list of the cell that its own position falls in.
pub fn build_grid(places: &Vec<CompactPlace>) -> (g: CellMap<Vec<u32>>)
    requires
        places_in_range(places@),
        places.len() <= u32::MAX + 1,
    ensures
        cells_view(g@) == grid_of(points_of(places@)),
{
    let mut pts: Vec<(i32, i32)> = Vec::new();
    let mut i: usize = 0;
    while i < places.len()
        invariant
            i <= places.len(),
            pts@ == points_of(places@).take(i as int),
        decreases places.len() - i,
    {
        pts.push((places[i].lat, places[i].lon));
        i = i + 1;
        assert(pts@ =~= points_of(places@).take(i as int));
    }
    assert(pts@ =~= points_of(places@));
    assert(points_in_range(pts@)) by {
        assert forall|j: int| 0 <= j < pts@.len() implies valid_point(
            #[trigger] pts@[j].0,
            pts@[j].1,
        ) by {
            assert(valid_point(places@[j].lat, places@[j].lon));
        }
    }
    index_points(&pts)
}

/// Grid completeness: every record id below the record count appears in
/// exactly one cell of the grid, the cell computed from the record's own
/// position, and every id in the grid names a record.
pub proof fn lemma_grid_complete(places: Seq<CompactPlace>, i: int)
    requires
        places.len() <= u32::MAX + 1,
        0 <= i < places.len(),
    ensures
        grid_of(points_of(places)).contains_key(place_cell(places[i])),
        grid_of(points_of(places))[place_cell(places[i])].contains(i as u32),
        forall|c: (i16, i16)|
            #[trigger] grid_of(points_of(places)).contains_key(c) && grid_of(
                points_of(places),
            )[c].contains(i as u32) ==> c == place_cell(places[i]),
        forall|c: (i16, i16), j: int|
            #[trigger] grid_of(points_of(places)).contains_key(c) && 0 <= j < grid_of(
                points_of(places),
            )[c].len() ==> #[trigger] grid_of(points_of(places))[c][j] < places.len(),
{
    let pts = points_of(places);
    let n = pts.len();
    assert(pts[i] == (places[i].lat, places[i].lon));
    assert(cell_of(pts[i].0 as int, pts[i].1 as int) == place_cell(places[i]));
    assert(grid_of(pts).contains_key(place_cell(places[i])));
    lemma_ids_in_cell_complete(pts, place_cell(places[i]), n, i);
    assert forall|c: (i16, i16)|
        #[trigger] grid_of(pts).contains_key(c) && grid_of(pts)[c].contains(
            i as u32,
        ) implies c == place_cell(places[i]) by {
        lemma_ids_in_cell_bounds(pts, c, n);
        let s = ids_in_cell(pts, c, n);
        let j = choose|j: int| 0 <= j < s.len() && s[j] == i as u32;
        assert(s[j] == i as u32);
    }
    assert forall|c: (i16, i16), j: int|
        #[trigger] grid_of(pts).contains_key(c) && 0 <= j < grid_of(
            pts,
        )[c].len() implies #[trigger] grid_of(pts)[c][j] < places.len() by {
        lemma_ids_in_cell_bounds(pts, c, n);
    }
}

/// The ids listed under cell `k`; none when the cell is absent.
pub open spec fn cell_ids(grid: Map<(i16, i16), Seq<u32>>, k: (i16, i16)) -> Seq<u32> {
    if grid.contains_key(k) {
        grid[k]
    } else {
        Seq::empty()
    }
}

/// The `i`-th cell of the 3x3 block around `key`, for `i` in `0..9`: the
/// latitude offset runs -1, 0, 1 in the outer order, the longitude offset in
/// the inner one.
pub open spec fn neighbor(key: (i16, i16), i: int) -> (i16, i16) {
    ((key.0 + (i / 3 - 1)) as i16, (key.1 + (i % 3 - 1)) as i16)
}

/// The ids of the first `n` cells of the block around `key`, cell by cell.
pub open spec fn neighborhood_upto(grid: Map<(i16, i16), Seq<u32>>, key: (i16, i16), n: nat) -> Seq<
    u32,
>
    decreases n,
{
    if n == 0 {
        Seq::empty()
    } else {
        neighborhood_upto(grid, key, (n - 1) as nat) + cell_ids(grid, neighbor(key, n - 1))
    }
}

/// Every id listed in the 3x3 block of cells around `key`, in scan order.
pub open spec fn neighborhood(grid: Map<(i16, i16), Seq<u32>>, key: (i16, i16)) -> Seq<u32> {
    neighborhood_upto(grid, key, 9)
}

/// Every id in a grid is below `n`.
pub open spec fn ids_below(grid: Map<(i16, i16), Seq<u32>>, n: nat) -> bool {
    forall|k: (i16, i16), j: int| #[trigger]
        grid.contains_key(k) && 0 <= j < grid[k].len() ==> #[trigger] grid[k][j] < n
}

/// Every id in the grid over a list of points names one of the points.
pub proof fn lemma_grid_ids_below(pts: Seq<(i32, i32)>)
    requires
        pts.len() <= u32::MAX + 1,
    ensures
        ids_below(grid_of(pts), pts.len()),
{
    assert forall|k: (i16, i16), j: int| #[trigger]
        grid_of(pts).contains_key(k) && 0 <= j < grid_of(pts)[k].len() implies #[trigger] grid_of(
        pts,
    )[k][j] < pts.len() by {
        lemma_ids_in_cell_bounds(pts, k, pts.len());
    }
}

/// Collects the ids of the 3x3 block of cells centred on `key`: latitude
/// offset outermost, each cell's ids in stored order.
pub(crate) fn scan_block(grid: &CellMap<Vec<u32>>, key: (i16, i16), bound: Ghost<nat>) -> (r: Vec<u32>)
    requires
        i16::MIN < key.0 < i16::MAX,
        i16::MIN < key.1 < i16::MAX,
        ids_below(cells_view(grid@), bound@),
    ensures
        r@ == neighborhood(cells_view(grid@), key),
        forall|j: int| 0 <= j < r.len() ==> #[trigger] r@[j] < bound@,
{
    let ghost m = cells_view(grid@);
    let mut out: Vec<u32> = Vec::new();
    let mut i: usize = 0;
    while i < 9
        invariant
            i <= 9,
            i16::MIN < key.0 < i16::MAX,
            i16::MIN < key.1 < i16::MAX,
            m == cells_view(grid@),
            ids_below(m, bound@),
            out@ == neighborhood_upto(m, key, i as nat),
            forall|j: int| 0 <= j < out.len() ==> #[trigger] out@[j] < bound@,
        decreases 9 - i,
    {
        let dlat = (i / 3) as i16 - 1;
        let dlon = (i % 3) as i16 - 1;
        let k = (key.0 + dlat, key.1 + dlon);
        assert(k == neighbor(key, i as int));
        match cell_get(grid, k) {
            Some(ids) => {
                assert(m[k] == ids@);
                let mut j: usize = 0;
                let ghost start = out@;
                while j < ids.len()
                    invariant
                        j <= ids.len(),
                        out@ == start + ids@.take(j as int),
                        ids_below(m, bound@),
                        m.contains_key(k),
                        m[k] == ids@,
                        forall|t: int| 0 <= t < out.len() ==> #[trigger] out@[t] < bound@,
                    decreases ids.len() - j,
                {
                    out.push(ids[j]);
                    j = j + 1;
                    assert(out@ =~= start + ids@.take(j as int));
                }
                assert(ids@.take(j as int) =~= ids@);
            },
            None => {
                assert(cell_ids(m, k) =~= Seq::<u32>::empty());
                assert(out@ =~= out@ + cell_ids(m, k));
            },
        }
        i = i + 1;
    }
    out
}

} // verus!
