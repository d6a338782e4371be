//! Postal-code merge: each place takes the postal code of the nearest
//! postal record of its country in the 3x3 block of cells around it.
use crate::coords::{cell_key, cell_of, valid_point};
use crate::fxmap::cells_view;
use crate::geocoder::{first_min_index, is_first_min, lemma_first_min_unique};
use crate::grid::{grid_of, ids_below, index_points, lemma_grid_ids_below, neighborhood, scan_block};
use crate::model::{PostalCode, RawPlace};
use vstd::prelude::*;

verus! {

/// Every raw record lies in the valid coordinate range.
pub open spec fn raw_in_range(s: Seq<RawPlace>) -> bool {
    forall|i: int| 0 <= i < s.len() ==> valid_point(#[trigger] s[i].lat, s[i].lon)
}

/// Every postal record lies in the valid coordinate range.
pub open spec fn postal_in_range(s: Seq<PostalCode>) -> bool {
    forall|i: int| 0 <= i < s.len() ==> valid_point(#[trigger] s[i].lat, s[i].lon)
}

/// The position of each postal record.
pub open spec fn postal_points(codes: Seq<PostalCode>) -> Seq<(i32, i32)> {
    codes.map_values(|c: PostalCode| (c.lat, c.lon))
}

/// Squared planar distance between a place and a postal record, in
/// fixed-point units.
pub open spec fn sq_dist(p: RawPlace, c: PostalCode) -> int {
    (p.lat - c.lat) * (p.lat - c.lat) + (p.lon - c.lon) * (p.lon - c.lon)
}

/// The first `n` ids of `ids` whose postal record has country `country`.
pub open spec fn same_country_upto(
    ids: Seq<u32>,
    codes: Seq<PostalCode>,
    country: Seq<char>,
    n: nat,
) -> Seq<u32>
    decreases n,
{
    if n == 0 {
        Seq::empty()
    } else {
        let prev = same_country_upto(ids, codes, country, (n - 1) as nat);
        if codes[ids[n - 1] as int].country@ == country {
            prev.push(ids[n - 1])
        } else {
            prev
        }
    }
}

/// The postal records that compete for place `p`: those in the 3x3 block
/// of cells around it that share its country, in scan order.
pub open spec fn postal_candidates(p: RawPlace, codes: Seq<PostalCode>) -> Seq<u32> {
    let block = neighborhood(grid_of(postal_points(codes)), cell_of(p.lat as int, p.lon as int));
    same_country_upto(block, codes, p.country_code@, block.len())
}

/// The distance of each candidate from `p`.
pub open spec fn candidate_dists(p: RawPlace, codes: Seq<PostalCode>, cands: Seq<u32>) -> Seq<u64> {
    cands.map_values(|id: u32| sq_dist(p, codes[id as int]) as u64)
}

/// Place `p` after the merge: with no candidate it is unchanged; otherwise
/// it takes the postal code of the nearest candidate (the first one on a
/// tie), and that candidate's district when its own is empty.
pub open spec fn merged(p: RawPlace, codes: Seq<PostalCode>) -> RawPlace {
    let cands = postal_candidates(p, codes);
    if cands.len() == 0 {
        p
    } else {
        let k = choose|k: int| is_first_min(candidate_dists(p, codes, cands), k);
        let best = codes[cands[k] as int];
        RawPlace {
            city: p.city,
            region: p.region,
            region_code: p.region_code,
            district: if p.district@.len() == 0 {
                best.district
            } else {
                p.district
            },
            country_code: p.country_code,
            postal_code: best.code,
            timezone: p.timezone,
            lat: p.lat,
            lon: p.lon,
        }
    }
}

fn squared_distance(p: &RawPlace, c: &PostalCode) -> (d: u64)
    requires
        valid_point(p.lat, p.lon),
        valid_point(c.lat, c.lon),
    ensures
        d == sq_dist(*p, *c),
{
    let a = p.lat as i64 - c.lat as i64;
    let b = p.lon as i64 - c.lon as i64;
    assert(0 <= a * a <= 18_000_000 * 18_000_000) by (nonlinear_arith)
        requires
            -18_000_000 <= a <= 18_000_000,
    ;
    assert(0 <= b * b <= 36_000_000 * 36_000_000) by (nonlinear_arith)
        requires
            -36_000_000 <= b <= 36_000_000,
    ;
    (a * a + b * b) as u64
}

/// Gives each place the postal code of the nearest postal record of its
/// country within the 3x3 block of cells around it (squared planar
/// distance in fixed-point units), and that record's district when the
/// place has none. A place without such a record is left as it was.
pub fn merge_postal_codes(places: &mut Vec<RawPlace>, postal_codes: &Vec<PostalCode>)
    requires
        raw_in_range(old(places)@),
        postal_in_range(postal_codes@),
        postal_codes.len() <= u32::MAX + 1,
    ensures
        final(places)@.len() == old(places)@.len(),
        forall|i: int|
            0 <= i < old(places)@.len() ==> #[trigger] final(places)@[i] == merged(
                old(places)@[i],
                postal_codes@,
            ),
{
    let ghost codes = postal_codes@;
    let mut pts: Vec<(i32, i32)> = Vec::new();
    let mut t: usize = 0;
    while t < postal_codes.len()
        invariant
            t <= postal_codes.len(),
            codes == postal_codes@,
            pts@ == postal_points(codes).take(t as int),
        decreases postal_codes.len() - t,
    {
        pts.push((postal_codes[t].lat, postal_codes[t].lon));
        t = t + 1;
        assert(pts@ =~= postal_points(codes).take(t as int));
    }
    assert(pts@ =~= postal_points(codes));
    assert forall|j: int| 0 <= j < pts@.len() implies valid_point(#[trigger] pts@[j].0, pts@[j].1) by {
        assert(valid_point(codes[j].lat, codes[j].lon));
    }
    let grid = index_points(&pts);
    proof {
        lemma_grid_ids_below(pts@);
    }
    let n = places.len();
    let mut i: usize = 0;
    while i < n
        invariant
            n == places.len(),
            n == old(places)@.len(),
            i <= n,
            codes == postal_codes@,
            raw_in_range(old(places)@),
            postal_in_range(codes),
            cells_view(grid@) == grid_of(postal_points(codes)),
            ids_below(grid_of(postal_points(codes)), codes.len()),
            forall|j: int| 0 <= j < i ==> #[trigger] places@[j] == merged(old(places)@[j], codes),
            forall|j: int| i <= j < n ==> #[trigger] places@[j] == old(places)@[j],
        decreases n - i,
    {
        assert(valid_point(places@[i as int].lat, places@[i as int].lon));
        let key = cell_key(places[i].lat, places[i].lon);
        let block = scan_block(&grid, key, Ghost(codes.len()));
        let ghost p = places@[i as int];
        let mut cands: Vec<u32> = Vec::new();
        let mut dists: Vec<u64> = Vec::new();
        let mut j: usize = 0;
        while j < block.len()
            invariant
                j <= block.len(),
                i < n,
                n == places.len(),
                p == places@[i as int],
                codes == postal_codes@,
                postal_in_range(codes),
                valid_point(p.lat, p.lon),
                forall|t: int| 0 <= t < block.len() ==> #[trigger] block@[t] < codes.len(),
                cands@ == same_country_upto(block@, codes, p.country_code@, j as nat),
                forall|t: int| 0 <= t < cands.len() ==> #[trigger] cands@[t] < codes.len(),
                dists@ == candidate_dists(p, codes, cands@),
            decreases block.len() - j,
        {
            let id = block[j];
            let c = &postal_codes[id as usize];
            if c.country == places[i].country_code {
                assert(valid_point(codes[id as int].lat, codes[id as int].lon));
                let d = squared_distance(&places[i], c);
                cands.push(id);
                dists.push(d);
                assert(dists@ =~= candidate_dists(p, codes, cands@));
            }
            j = j + 1;
        }
        assert(cands@ == postal_candidates(p, codes));
        match first_min_index(&dists) {
            Some(k) => {
                proof {
                    let kk = choose|kk: int| is_first_min(candidate_dists(p, codes, cands@), kk);
                    lemma_first_min_unique(dists@, k as int, kk);
                }
                let best = &postal_codes[cands[k] as usize];
                let code = best.code.clone();
                places[i].postal_code = code;
                if places[i].district.as_str().is_empty() {
                    let district = best.district.clone();
                    places[i].district = district;
                }
            },
            None => {},
        }
        assert(places@[i as int] == merged(old(places)@[i as int], codes));
        i = i + 1;
    }
}

} // verus!
