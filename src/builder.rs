//! The build pipeline: postal-code merge, near-duplicate collapse, string
//! interning and grid construction, from raw records to a database.
use crate::coords::valid_point;
use crate::dedup::{by_rank, deduplicate_places, survivors};
use crate::fxmap::{id_map_new, text_map_new, IdMap, TextMap};
use crate::grid::{build_grid, grid_of, lemma_grid_complete, points_of};
use crate::interner::{
    dedup_texts, distinct_texts, intern_spec, lemma_intern_idempotent, position_of, StringInterner,
};
use crate::merge::{merge_postal_codes, merged, postal_in_range, raw_in_range};
use crate::model::{
    indices_below, places_in_range, CompactPlace, Database, DatabaseView, PostalCode, RawPlace,
};
use vstd::prelude::*;

verus! {

/// The seven texts of a record, in stored field order.
pub open spec fn place_texts(p: RawPlace) -> Seq<Seq<char>> {
    seq![p.city@, p.region@, p.region_code@, p.district@, p.country_code@, p.postal_code@, p.timezone@]
}

/// The texts of all records, record after record.
pub open spec fn all_texts(s: Seq<RawPlace>) -> Seq<Seq<char>>
    decreases s.len(),
{
    if s.len() == 0 {
        Seq::empty()
    } else {
        all_texts(s.drop_last()) + place_texts(s.last())
    }
}

/// Record `p` with each text replaced by its position in table `t`.
pub open spec fn compact_of(p: RawPlace, t: Seq<Seq<char>>) -> CompactPlace {
    CompactPlace {
        city: position_of(t, p.city@) as u32,
        region: position_of(t, p.region@) as u32,
        region_code: position_of(t, p.region_code@) as u32,
        district: position_of(t, p.district@) as u32,
        country_code: position_of(t, p.country_code@) as u32,
        postal_code: position_of(t, p.postal_code@) as u32,
        timezone: position_of(t, p.timezone@) as u32,
        lat: p.lat,
        lon: p.lon,
    }
}

proof fn lemma_all_texts_len(s: Seq<RawPlace>)
    ensures
        all_texts(s).len() == 7 * s.len(),
    decreases s.len(),
{
    if s.len() > 0 {
        lemma_all_texts_len(s.drop_last());
    }
}

proof fn lemma_dedup_len(xs: Seq<Seq<char>>)
    ensures
        dedup_texts(xs).len() <= xs.len(),
        distinct_texts(dedup_texts(xs)),
        forall|i: int| 0 <= i < xs.len() ==> dedup_texts(xs).contains(#[trigger] xs[i]),
    decreases xs.len(),
{
    if xs.len() > 0 {
        let init = xs.drop_last();
        lemma_dedup_len(init);
        let t = dedup_texts(init);
        lemma_intern_idempotent(t, xs.last());
        assert forall|i: int| 0 <= i < xs.len() implies dedup_texts(xs).contains(#[trigger] xs[i]) by {
            if i < xs.len() - 1 {
                assert(t.contains(init[i]));
                let j = choose|j: int| 0 <= j < t.len() && t[j] == init[i];
                assert(dedup_texts(xs)[j] == xs[i]);
            } else {
                let (t1, i1) = intern_spec(t, xs.last());
                assert(t1[i1] == xs.last());
            }
        }
    }
}

proof fn lemma_table_grows(t: Seq<Seq<char>>, s: Seq<char>, q: Seq<char>)
    requires
        distinct_texts(t),
        t.contains(q),
    ensures
        intern_spec(t, s).0.contains(q),
        position_of(intern_spec(t, s).0, q) == position_of(t, q),
{
    let t1 = intern_spec(t, s).0;
    let i = position_of(t, q);
    assert(t[i] == q);
    assert(t1[i] == q);
    lemma_intern_idempotent(t, s);
    let j = position_of(t1, q);
    assert(t1[j] == q);
}

/// The position of a text in a table without duplicates is the one that
/// holds it.
proof fn lemma_position_unique(t: Seq<Seq<char>>, x: Seq<char>, i: int)
    requires
        distinct_texts(t),
        0 <= i < t.len(),
        t[i] == x,
    ensures
        position_of(t, x) == i,
{
    let j = position_of(t, x);
    assert(t[j] == x);
}

/// Interns one text, keeping the table equal to the first-occurrence
/// dedup of all texts interned so far.
fn intern_field(interner: &mut StringInterner, text: &String, q: Ghost<Seq<Seq<char>>>) -> (r: u32)
    requires
        old(interner).wf(),
        old(interner)@ == dedup_texts(q@),
        q@.len() < u32::MAX,
    ensures
        final(interner).wf(),
        final(interner)@ == dedup_texts(q@.push(text@)),
        final(interner)@.contains(text@),
        r == position_of(final(interner)@, text@),
        forall|x: Seq<char>| #[trigger]
            old(interner)@.contains(x) ==> final(interner)@.contains(x) && position_of(
                final(interner)@,
                x,
            ) == position_of(old(interner)@, x),
{
    proof {
        lemma_dedup_len(q@);
        assert(q@.push(text@).drop_last() =~= q@);
    }
    let r = interner.intern(text.as_str());
    proof {
        lemma_intern_idempotent(old(interner)@, text@);
        lemma_position_unique(interner@, text@, r as int);
        assert forall|x: Seq<char>| #[trigger] old(interner)@.contains(x) implies interner@.contains(x)
            && position_of(interner@, x) == position_of(old(interner)@, x) by {
            lemma_table_grows(old(interner)@, text@, x);
        }
    }
    r
}

/// Interns the text of every record, in record order and field order, and
/// returns the string table and the records with indices in place of text.
/// The table holds each distinct text once, in order of first occurrence.
#[verifier::spinoff_prover]
pub fn intern_strings(places: Vec<RawPlace>) -> (r: (Vec<String>, Vec<CompactPlace>))
    requires
        7 * places.len() < u32::MAX,
    ensures
        r.0@.map_values(|s: String| s@) == dedup_texts(all_texts(places@)),
        distinct_texts(dedup_texts(all_texts(places@))),
        r.1@.len() == places@.len(),
        forall|i: int|
            0 <= i < places@.len() ==> #[trigger] r.1@[i] == compact_of(
                places@[i],
                dedup_texts(all_texts(places@)),
            ),
        forall|i: int|
            0 <= i < places@.len() ==> all_in(dedup_texts(all_texts(places@)), #[trigger] places@[i]),
{
    let ghost s = places@;
    let mut interner = StringInterner::new();
    let mut out: Vec<CompactPlace> = Vec::new();
    let mut i: usize = 0;
    assert(all_texts(s.take(0)) =~= Seq::<Seq<char>>::empty());
    while i < places.len()
        invariant
            s == places@,
            i <= places.len(),
            7 * places.len() < u32::MAX,
            interner.wf(),
            interner@ == dedup_texts(all_texts(s.take(i as int))),
            out@.len() == i,
            forall|j: int|
                0 <= j < i ==> #[trigger] out@[j] == compact_of(s[j], interner@) && all_in(
                    interner@,
                    s[j],
                ),
        decreases places.len() - i,
    {
        let p = &places[i];
        let ghost t0 = interner@;
        let ghost q0 = all_texts(s.take(i as int));
        proof {
            lemma_all_texts_len(s.take(i as int));
            assert(s.take(i + 1).drop_last() =~= s.take(i as int));
            assert(s.take(i + 1).last() == s[i as int]);
        }
        let ghost q1 = q0.push(p.city@);
        let ghost q2 = q1.push(p.region@);
        let ghost q3 = q2.push(p.region_code@);
        let ghost q4 = q3.push(p.district@);
        let ghost q5 = q4.push(p.country_code@);
        let ghost q6 = q5.push(p.postal_code@);
        let city = intern_field(&mut interner, &p.city, Ghost(q0));
        let region = intern_field(&mut interner, &p.region, Ghost(q1));
        let region_code = intern_field(&mut interner, &p.region_code, Ghost(q2));
        let district = intern_field(&mut interner, &p.district, Ghost(q3));
        let country_code = intern_field(&mut interner, &p.country_code, Ghost(q4));
        let postal_code = intern_field(&mut interner, &p.postal_code, Ghost(q5));
        let timezone = intern_field(&mut interner, &p.timezone, Ghost(q6));
        let c = CompactPlace {
            city,
            region,
            region_code,
            district,
            country_code,
            postal_code,
            timezone,
            lat: p.lat,
            lon: p.lon,
        };
        proof {
            assert(q6.push(p.timezone@) =~= all_texts(s.take(i + 1)));
            assert(c == compact_of(s[i as int], interner@));
            assert(all_in(interner@, s[i as int]));
            assert forall|j: int| 0 <= j < i implies #[trigger] compact_of(s[j], interner@)
                == compact_of(s[j], t0) && all_in(interner@, s[j]) by {
                assert(out@[j] == compact_of(s[j], t0) && all_in(t0, s[j]));
            }
        }
        let ghost before = out@;
        out.push(c);
        proof {
            assert forall|j: int| 0 <= j < i + 1 implies #[trigger] out@[j] == compact_of(
                s[j],
                interner@,
            ) && all_in(interner@, s[j]) by {
                if j < i {
                    assert(out@[j] == before[j]);
                    assert(before[j] == compact_of(s[j], t0) && all_in(t0, s[j]));
                }
            }
        }
        i = i + 1;
    }
    assert(s.take(i as int) =~= s);
    proof {
        lemma_dedup_len(all_texts(s));
        assert(all_texts(s.take(i as int)) == all_texts(s));
        assert(interner@ == dedup_texts(all_texts(s)));
        assert forall|j: int| 0 <= j < s.len() implies #[trigger] out@[j] == compact_of(
            s[j],
            dedup_texts(all_texts(s)),
        ) && all_in(dedup_texts(all_texts(s)), s[j]) by {
            assert(out@[j] == compact_of(s[j], interner@) && all_in(interner@, s[j]));
        }
        assert forall|j: int| 0 <= j < s.len() implies all_in(
            dedup_texts(all_texts(s)),
            #[trigger] s[j],
        ) by {
            assert(out@[j] == compact_of(s[j], interner@) && all_in(interner@, s[j]));
        }
    }
    (interner.into_strings(), out)
}

/// Table `t` holds every text of record `p`.
pub open spec fn all_in(t: Seq<Seq<char>>, p: RawPlace) -> bool {
    &&& t.contains(p.city@)
    &&& t.contains(p.region@)
    &&& t.contains(p.region_code@)
    &&& t.contains(p.district@)
    &&& t.contains(p.country_code@)
    &&& t.contains(p.postal_code@)
    &&& t.contains(p.timezone@)
}

/// Every record after the merge.
pub open spec fn merged_all(s: Seq<RawPlace>, codes: Seq<PostalCode>) -> Seq<RawPlace> {
    s.map_values(|p: RawPlace| merged(p, codes))
}

/// The database that the pipeline builds: the merged records are
/// collapsed and ordered, their text interned, and the grid built over the
/// result.
pub open spec fn built_view(s: Seq<RawPlace>, codes: Seq<PostalCode>) -> DatabaseView {
    let kept = by_rank(survivors(merged_all(s, codes)));
    let table = dedup_texts(all_texts(kept));
    let places = kept.map_values(|p: RawPlace| compact_of(p, table));
    DatabaseView { strings: table, places, grid: grid_of(points_of(places)) }
}

/// Database builder: the administrative-code tables used to name regions
/// and districts while records are read, and the assembly of the database.
pub struct Builder {
    /// `"{country}.{admin1}"` to region name, and `"{country}.{admin1}:gid"`
    /// to the region's GeoNames id.
    pub admin1: TextMap<String>,
    /// `"{country}.{admin1}.{admin2}"` to district name.
    pub admin2: TextMap<String>,
    /// GeoNames id of a region to its ISO 3166-2 code.
    pub admin1_iso: IdMap<String>,
}

impl Builder {
    /// A builder with empty lookup tables.
    pub fn new() -> (r: Builder)
        ensures
            r.admin1@ == Map::<String, String>::empty(),
            r.admin2@ == Map::<String, String>::empty(),
            r.admin1_iso@ == Map::<u32, String>::empty(),
    {
        Builder { admin1: text_map_new(), admin2: text_map_new(), admin1_iso: id_map_new() }
    }

    /// Builds the database from the records read for all countries and the
    /// postal-code records: postal merge, near-duplicate collapse, string
    /// interning, grid index. Every reference of the result resolves.
    pub fn build_database(places: Vec<RawPlace>, postal_codes: &Vec<PostalCode>) -> (db: Database)
        requires
            raw_in_range(places@),
            postal_in_range(postal_codes@),
            postal_codes.len() <= u32::MAX + 1,
            7 * places.len() < u32::MAX,
        ensures
            db@ == built_view(places@, postal_codes@),
            db@.refs_valid(),
    {
        let ghost s = places@;
        let mut places = places;
        merge_postal_codes(&mut places, postal_codes);
        assert(places@ =~= merged_all(s, postal_codes@));
        let kept = deduplicate_places(places);
        let ghost k = kept@;
        let (strings, compact) = intern_strings(kept);
        let ghost table = dedup_texts(all_texts(k));
        assert(compact@ =~= k.map_values(|p: RawPlace| compact_of(p, table)));
        assert(places_in_range(compact@)) by {
            assert forall|i: int| 0 <= i < compact@.len() implies valid_point(
                #[trigger] compact@[i].lat,
                compact@[i].lon,
            ) by {
                assert(valid_point(k[i].lat, k[i].lon));
            }
        }
        let grid = build_grid(&compact);
        let db = Database { strings, places: compact, grid };
        proof {
            assert forall|i: int| 0 <= i < db@.places.len() implies indices_below(
                #[trigger] db@.places[i],
                db@.strings.len(),
            ) by {
                assert(all_in(table, k[i]));
                let p = k[i];
                assert(table[position_of(table, p.city@)] == p.city@);
                assert(table[position_of(table, p.region@)] == p.region@);
                assert(table[position_of(table, p.region_code@)] == p.region_code@);
                assert(table[position_of(table, p.district@)] == p.district@);
                assert(table[position_of(table, p.country_code@)] == p.country_code@);
                assert(table[position_of(table, p.postal_code@)] == p.postal_code@);
                assert(table[position_of(table, p.timezone@)] == p.timezone@);
            }
            assert forall|key: (i16, i16), j: int| #[trigger]
                db@.grid.contains_key(key) && 0 <= j < db@.grid[key].len() implies #[trigger] db@.grid[key][j]
                < db@.places.len() by {
                if 0 < compact@.len() {
                    lemma_grid_complete(compact@, 0);
                }
            }
        }
        db
    }
}

} // verus!
