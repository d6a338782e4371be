//! Near-duplicate collapse: of the records that share a cell of about
//! 1 km, only the most complete one stays.
use crate::coords::{fine_cell_of, fine_key, valid_point};
use crate::fxmap::{cell_get, cell_insert, cell_map_new, CellMap};
use crate::merge::raw_in_range;
use crate::model::RawPlace;
use vstd::prelude::*;
use vstd::utf8::encode_utf8;

verus! {

/// How complete a record looks: a longer city name (in bytes) ranks higher,
/// and on equal length a record with a postal code ranks higher.
pub open spec fn rank(p: RawPlace) -> int {
    2 * encode_utf8(p.city@).len() + if p.postal_code@.len() > 0 {
        1int
    } else {
        0int
    }
}

/// The near-duplicate cell of a raw record.
pub open spec fn fine_cell(p: RawPlace) -> (i16, i16) {
    fine_cell_of(p.lat as int, p.lon as int)
}

/// Record `i` is preferred to record `j`: it ranks higher, or ranks the
/// same and comes first.
pub open spec fn beats(s: Seq<RawPlace>, i: int, j: int) -> bool {
    rank(s[i]) > rank(s[j]) || (rank(s[i]) == rank(s[j]) && i < j)
}

/// Record `i` is preferred to every other record of its cell.
pub open spec fn survives(s: Seq<RawPlace>, i: int) -> bool {
    forall|j: int|
        0 <= j < s.len() && j != i && #[trigger] fine_cell(s[j]) == fine_cell(s[i]) ==> beats(
            s,
            i,
            j,
        )
}

/// The surviving records among the first `n`, in input order.
pub open spec fn survivors_upto(s: Seq<RawPlace>, n: nat) -> Seq<RawPlace>
    decreases n,
{
    if n == 0 {
        Seq::empty()
    } else {
        let prev = survivors_upto(s, (n - 1) as nat);
        if survives(s, n - 1) {
            prev.push(s[n - 1])
        } else {
            prev
        }
    }
}

/// The records that survive the collapse, in input order.
pub open spec fn survivors(s: Seq<RawPlace>) -> Seq<RawPlace> {
    survivors_upto(s, s.len())
}

/// Record `j` lies in a cell of `m`, and `m` names it or a record that
/// beats it.
pub open spec fn covered(s: Seq<RawPlace>, m: Map<(i16, i16), usize>, j: int) -> bool {
    &&& m.contains_key(fine_cell(s[j]))
    &&& (j == m[fine_cell(s[j])] || beats(s, m[fine_cell(s[j])] as int, j))
}

fn clone_place(p: &RawPlace) -> (r: RawPlace)
    ensures
        r == *p,
{
    RawPlace {
        city: p.city.clone(),
        region: p.region.clone(),
        region_code: p.region_code.clone(),
        district: p.district.clone(),
        country_code: p.country_code.clone(),
        postal_code: p.postal_code.clone(),
        timezone: p.timezone.clone(),
        lat: p.lat,
        lon: p.lon,
    }
}

fn outranks(a: &RawPlace, b: &RawPlace) -> (r: bool)
    ensures
        r == (rank(*a) > rank(*b)),
{
    let la = a.city.as_str().as_bytes().len();
    let lb = b.city.as_str().as_bytes().len();
    let pa = !a.postal_code.as_str().is_empty();
    let pb = !b.postal_code.as_str().is_empty();
    assert(la == encode_utf8(a.city@).len());
    assert(lb == encode_utf8(b.city@).len());
    assert(pa == (a.postal_code@.len() > 0));
    assert(pb == (b.postal_code@.len() > 0));
    la > lb || (la == lb && pa && !pb)
}

fn keep_survivors(places: &Vec<RawPlace>) -> (r: Vec<RawPlace>)
    requires
        raw_in_range(places@),
    ensures
        r@ == survivors(places@),
        r@.len() <= places@.len(),
        raw_in_range(r@),
{
    let ghost s = places@;
    let n = places.len();
    let mut best: CellMap<usize> = cell_map_new();
    let mut i: usize = 0;
    while i < n
        invariant
            n == places.len(),
            s == places@,
            i <= n,
            raw_in_range(s),
            forall|k: (i16, i16)| #[trigger]
                best@.contains_key(k) ==> best@[k] < i && fine_cell(s[best@[k] as int]) == k,
            forall|j: int| 0 <= j < i ==> #[trigger] covered(s, best@, j),
        decreases n - i,
    {
        assert(valid_point(s[i as int].lat, s[i as int].lon));
        let key = fine_key(places[i].lat, places[i].lon);
        let ghost before = best@;
        match cell_get(&best, key) {
            Some(b) => {
                let b = *b;
                assert(before.contains_key(key) && before[key] == b);
                if outranks(&places[i], &places[b]) {
                    cell_insert(&mut best, key, i);
                    assert forall|j: int| 0 <= j < i + 1 implies #[trigger] covered(s, best@, j) by {
                        if j < i {
                            assert(covered(s, before, j));
                            if fine_cell(s[j]) == key {
                                assert(j == b || beats(s, b as int, j));
                                assert(rank(s[i as int]) > rank(s[j]));
                            }
                        }
                    }
                } else {
                    assert(beats(s, b as int, i as int));
                    assert forall|j: int| 0 <= j < i + 1 implies #[trigger] covered(s, best@, j) by {
                        if j < i {
                            assert(covered(s, before, j));
                        }
                    }
                }
            },
            None => {
                cell_insert(&mut best, key, i);
                assert forall|j: int| 0 <= j < i + 1 implies #[trigger] covered(s, best@, j) by {
                    if j < i {
                        assert(covered(s, before, j));
                    }
                }
            },
        }
        i = i + 1;
    }
    let mut out: Vec<RawPlace> = Vec::new();
    let mut i: usize = 0;
    while i < n
        invariant
            n == places.len(),
            s == places@,
            i <= n,
            raw_in_range(s),
            forall|k: (i16, i16)| #[trigger]
                best@.contains_key(k) ==> best@[k] < n && fine_cell(s[best@[k] as int]) == k,
            forall|j: int| 0 <= j < n ==> #[trigger] covered(s, best@, j),
            out@ == survivors_upto(s, i as nat),
            out@.len() <= i,
            raw_in_range(out@),
        decreases n - i,
    {
        assert(valid_point(s[i as int].lat, s[i as int].lon));
        let key = fine_key(places[i].lat, places[i].lon);
        let keep = match cell_get(&best, key) {
            Some(b) => *b == i,
            None => false,
        };
        proof {
            assert(covered(s, best@, i as int));
            let b = best@[key] as int;
            if keep {
                assert forall|j: int|
                    0 <= j < s.len() && j != i && #[trigger] fine_cell(s[j]) == fine_cell(
                        s[i as int],
                    ) implies beats(s, i as int, j) by {
                    assert(covered(s, best@, j));
                }
            } else {
                assert(beats(s, b, i as int));
                assert(fine_cell(s[b]) == fine_cell(s[i as int]));
                assert(!survives(s, i as int));
            }
        }
        if keep {
            let ghost before = out@;
            out.push(clone_place(&places[i]));
            assert forall|t: int| 0 <= t < out@.len() implies valid_point(
                #[trigger] out@[t].lat,
                out@[t].lon,
            ) by {
                if t < before.len() {
                    assert(out@[t] == before[t]);
                }
            }
        }
        i = i + 1;
    }
    out
}

/// The records of `s` whose rank is `r`, in input order.
pub open spec fn of_rank(s: Seq<RawPlace>, r: int) -> Seq<RawPlace>
    decreases s.len(),
{
    if s.len() == 0 {
        Seq::empty()
    } else {
        let prev = of_rank(s.drop_last(), r);
        if rank(s.last()) == r {
            prev.push(s.last())
        } else {
            prev
        }
    }
}

/// The records of ranks `hi` down to `lo`, highest rank first, in input
/// order within a rank.
pub open spec fn ranks_desc(s: Seq<RawPlace>, hi: int, lo: int) -> Seq<RawPlace>
    decreases hi - lo + 1,
{
    if hi < lo {
        Seq::empty()
    } else {
        ranks_desc(s, hi, lo + 1) + of_rank(s, lo)
    }
}

/// The highest rank in `s` (zero when empty).
pub open spec fn max_rank(s: Seq<RawPlace>) -> int
    decreases s.len(),
{
    if s.len() == 0 {
        0
    } else if rank(s.last()) > max_rank(s.drop_last()) {
        rank(s.last())
    } else {
        max_rank(s.drop_last())
    }
}

/// `s` stably sorted by rank, highest first: longer city names first, and
/// on equal length records with a postal code first.
pub open spec fn by_rank(s: Seq<RawPlace>) -> Seq<RawPlace> {
    ranks_desc(s, max_rank(s), 0)
}

proof fn lemma_ranks_desc_push(s: Seq<RawPlace>, e: RawPlace, hi: int, lo: int)
    ensures
        ranks_desc(s.push(e), hi, lo).len() == ranks_desc(s, hi, lo).len() + if lo <= rank(e) <= hi {
            1int
        } else {
            0int
        },
        forall|k: int|
            0 <= k < ranks_desc(s.push(e), hi, lo).len() ==> #[trigger] ranks_desc(
                s.push(e),
                hi,
                lo,
            )[k] == e || ranks_desc(s, hi, lo).contains(ranks_desc(s.push(e), hi, lo)[k]),
    decreases hi - lo + 1,
{
    if hi >= lo {
        lemma_ranks_desc_push(s, e, hi, lo + 1);
        let t = s.push(e);
        assert(t.drop_last() =~= s);
        let a = ranks_desc(t, hi, lo + 1);
        let b = of_rank(t, lo);
        let a0 = ranks_desc(s, hi, lo + 1);
        let b0 = of_rank(s, lo);
        assert forall|k: int| 0 <= k < (a + b).len() implies #[trigger] (a + b)[k] == e || (a0
            + b0).contains((a + b)[k]) by {
            if k < a.len() {
                if (a + b)[k] != e {
                    let m = choose|m: int| 0 <= m < a0.len() && a0[m] == a[k];
                    assert((a0 + b0)[m] == a[k]);
                }
            } else {
                let m = k - a.len();
                if m < b0.len() {
                    assert(b[m] == b0[m]);
                    assert((a0 + b0)[a0.len() + m] == b0[m]);
                }
            }
        }
    }
}

proof fn lemma_by_rank(s: Seq<RawPlace>, hi: int)
    requires
        forall|i: int| 0 <= i < s.len() ==> 0 <= #[trigger] rank(s[i]) <= hi,
    ensures
        ranks_desc(s, hi, 0).len() == s.len(),
        forall|k: int|
            0 <= k < ranks_desc(s, hi, 0).len() ==> s.contains(#[trigger] ranks_desc(s, hi, 0)[k]),
    decreases s.len(),
{
    if s.len() == 0 {
        lemma_ranks_desc_empty(s, hi, 0);
    } else {
        let init = s.drop_last();
        assert forall|i: int| 0 <= i < init.len() implies 0 <= #[trigger] rank(init[i]) <= hi by {
            assert(init[i] == s[i]);
        }
        lemma_by_rank(init, hi);
        assert(init.push(s.last()) =~= s);
        lemma_ranks_desc_push(init, s.last(), hi, 0);
        assert(0 <= rank(s[s.len() - 1]) <= hi);
        assert forall|k: int| 0 <= k < ranks_desc(s, hi, 0).len() implies s.contains(
            #[trigger] ranks_desc(s, hi, 0)[k],
        ) by {
            let x = ranks_desc(s, hi, 0)[k];
            if x == s.last() {
                assert(s[s.len() - 1] == x);
            } else {
                let m = choose|m: int|
                    0 <= m < ranks_desc(init, hi, 0).len() && ranks_desc(init, hi, 0)[m] == x;
                assert(init.contains(x));
                let j = choose|j: int| 0 <= j < init.len() && init[j] == x;
                assert(s[j] == x);
            }
        }
    }
}

proof fn lemma_ranks_desc_empty(s: Seq<RawPlace>, hi: int, lo: int)
    requires
        s.len() == 0,
    ensures
        ranks_desc(s, hi, lo).len() == 0,
    decreases hi - lo + 1,
{
    if hi >= lo {
        lemma_ranks_desc_empty(s, hi, lo + 1);
    }
}

proof fn lemma_max_rank(s: Seq<RawPlace>)
    ensures
        forall|i: int| 0 <= i < s.len() ==> 0 <= #[trigger] rank(s[i]) <= max_rank(s),
        max_rank(s) >= 0,
    decreases s.len(),
{
    if s.len() > 0 {
        lemma_max_rank(s.drop_last());
        assert forall|i: int| 0 <= i < s.len() implies 0 <= #[trigger] rank(s[i]) <= max_rank(s) by {
            if i < s.len() - 1 {
                assert(s[i] == s.drop_last()[i]);
            }
        }
    }
}

fn rank_of(p: &RawPlace) -> (r: u128)
    ensures
        r == rank(*p),
{
    let len = p.city.as_str().as_bytes().len() as u128;
    let bonus: u128 = if p.postal_code.as_str().is_empty() {
        0
    } else {
        1
    };
    2 * len + bonus
}

/// Sorts records stably by rank, highest first, with one bucket per rank.
fn order_by_rank(s: &Vec<RawPlace>) -> (r: Vec<RawPlace>)
    ensures
        r@ == by_rank(s@),
        r@.len() == s@.len(),
        forall|k: int| 0 <= k < r@.len() ==> s@.contains(#[trigger] r@[k]),
{
    let n = s.len();
    let mut top: u128 = 0;
    let mut i: usize = 0;
    assert(max_rank(s@.take(0)) == 0);
    while i < n
        invariant
            n == s.len(),
            i <= n,
            top == max_rank(s@.take(i as int)),
        decreases n - i,
    {
        let r = rank_of(&s[i]);
        assert(s@.take(i + 1).drop_last() =~= s@.take(i as int));
        if r > top {
            top = r;
        }
        i = i + 1;
    }
    assert(s@.take(n as int) =~= s@);
    proof {
        lemma_max_rank(s@);
    }
    let mut buckets: Vec<Vec<usize>> = Vec::new();
    while (buckets.len() as u128) <= top
        invariant
            forall|b: int| 0 <= b < buckets.len() ==> (#[trigger] buckets@[b])@ == Seq::<usize>::empty(),
        decreases top + 1 - buckets.len(),
    {
        buckets.push(Vec::new());
    }
    let nb = buckets.len();
    let mut i: usize = 0;
    while i < n
        invariant
            n == s.len(),
            i <= n,
            nb == buckets.len(),
            top < nb,
            forall|j: int| 0 <= j < n ==> #[trigger] rank(s@[j]) <= top,
            forall|b: int|
                0 <= b < nb ==> (#[trigger] buckets@[b])@.map_values(|j: usize| s@[j as int])
                    == of_rank(s@.take(i as int), b),
            forall|b: int, t: int|
                0 <= b < nb && 0 <= t < buckets@[b]@.len() ==> #[trigger] buckets@[b]@[t] < i,
        decreases n - i,
    {
        let r = rank_of(&s[i]) as usize;
        let ghost before = buckets@;
        buckets[r].push(i);
        proof {
            assert(s@.take(i + 1).drop_last() =~= s@.take(i as int));
            assert forall|b: int| 0 <= b < nb implies (#[trigger] buckets@[b])@.map_values(
                |j: usize| s@[j as int],
            ) == of_rank(s@.take(i + 1), b) by {
                if b == r {
                    assert(buckets@[b]@ == before[b]@.push(i));
                    assert(buckets@[b]@.map_values(|j: usize| s@[j as int]) =~= before[b]@.map_values(
                        |j: usize| s@[j as int],
                    ).push(s@[i as int]));
                } else {
                    assert(buckets@[b] == before[b]);
                }
            }
            assert forall|b: int, t: int|
                0 <= b < nb && 0 <= t < buckets@[b]@.len() implies #[trigger] buckets@[b]@[t] < i
                + 1 by {
                if b != r {
                    assert(buckets@[b] == before[b]);
                } else if t < before[b]@.len() {
                    assert(buckets@[b]@[t] == before[b]@[t]);
                }
            }
        }
        i = i + 1;
    }
    assert(s@.take(n as int) =~= s@);
    let mut out: Vec<RawPlace> = Vec::new();
    let mut r: u128 = top + 1;
    assert(out@ =~= ranks_desc(s@, top as int, r as int));
    while r > 0
        invariant
            n == s.len(),
            nb == buckets.len(),
            top < nb,
            r <= top + 1,
            forall|b: int|
                0 <= b < nb ==> (#[trigger] buckets@[b])@.map_values(|j: usize| s@[j as int])
                    == of_rank(s@, b),
            forall|b: int, t: int|
                0 <= b < nb && 0 <= t < buckets@[b]@.len() ==> #[trigger] buckets@[b]@[t] < n,
            out@ == ranks_desc(s@, top as int, r as int),
        decreases r,
    {
        r = r - 1;
        let bucket = &buckets[r as usize];
        let ghost start = out@;
        let mut t: usize = 0;
        while t < bucket.len()
            invariant
                n == s.len(),
                t <= bucket.len(),
                forall|u: int| 0 <= u < bucket@.len() ==> #[trigger] bucket@[u] < n,
                out@ == start + bucket@.map_values(|j: usize| s@[j as int]).take(t as int),
            decreases bucket.len() - t,
        {
            out.push(clone_place(&s[bucket[t]]));
            t = t + 1;
            assert(out@ =~= start + bucket@.map_values(|j: usize| s@[j as int]).take(t as int));
        }
        assert(bucket@.map_values(|j: usize| s@[j as int]).take(t as int) =~= bucket@.map_values(
            |j: usize| s@[j as int],
        ));
        assert(buckets@[r as int] == *bucket);
    }
    proof {
        lemma_by_rank(s@, top as int);
    }
    out
}

/// Collapses near-duplicates: records are ordered by city-name length,
/// longest first, and on equal length those with a postal code first (a
/// stable order); then of the records that share a cell of about 1 km
/// (`floor(fixed / 1000)` on both axes) only the first in that order stays.
pub fn deduplicate_places(places: Vec<RawPlace>) -> (r: Vec<RawPlace>)
    requires
        raw_in_range(places@),
    ensures
        r@ == by_rank(survivors(places@)),
        r@.len() <= places@.len(),
        raw_in_range(r@),
{
    let kept = keep_survivors(&places);
    let r = order_by_rank(&kept);
    assert forall|k: int| 0 <= k < r@.len() implies valid_point(#[trigger] r@[k].lat, r@[k].lon) by {
        let j = choose|j: int| 0 <= j < kept@.len() && kept@[j] == r@[k];
        assert(valid_point(kept@[j].lat, kept@[j].lon));
    }
    r
}

/// Two records in the same near-duplicate cell collapse to one: the one
/// with the longer city name, or on equal length the one with a postal
/// code, or on a full tie the first.
pub proof fn lemma_pair_collapse(a: RawPlace, b: RawPlace)
    requires
        fine_cell(a) == fine_cell(b),
    ensures
        by_rank(survivors(seq![a, b])) == if rank(b) > rank(a) {
            seq![b]
        } else {
            seq![a]
        },
{
    let s = seq![a, b];
    assert(s[0] == a && s[1] == b);
    assert(survivors_upto(s, 0) == Seq::<RawPlace>::empty());
    let w = if rank(b) > rank(a) {
        b
    } else {
        a
    };
    if rank(b) > rank(a) {
        assert(!survives(s, 0));
        assert(survives(s, 1));
        assert(survivors_upto(s, 1) =~= Seq::<RawPlace>::empty());
        assert(survivors(s) =~= seq![b]);
    } else {
        assert(survives(s, 0));
        assert(!survives(s, 1));
        assert(survivors_upto(s, 1) =~= seq![a]);
    }
    let one = seq![w];
    assert(survivors(s) == one);
    lemma_max_rank(one);
    lemma_by_rank(one, max_rank(one));
    let r = by_rank(one);
    assert(one.contains(r[0]));
    assert(r =~= one);
}

} // verus!
