//! The query engine: nearest record to a point, over the 3x3 block of grid
//! cells around it.
use crate::codec::{database_at, decode_database};
use crate::coords::{cell_key, cell_of, valid_point};
use crate::fxmap::{cell_entries, lists_cells};
use crate::grid::{neighborhood, scan_block};
use crate::model::{indices_below, CompactPlace, Database, DatabaseView, ResolvedPlace};
use vstd::prelude::*;

verus! {

/// `i` holds the smallest distance, and no earlier position holds it.
pub open spec fn is_first_min(d: Seq<u64>, i: int) -> bool {
    &&& 0 <= i < d.len()
    &&& forall|j: int| 0 <= j < d.len() ==> d[i] <= #[trigger] d[j]
    &&& forall|j: int| 0 <= j < i ==> #[trigger] d[j] > d[i]
}

/// Determinism of the ranking: the first minimal position is unique, so a
/// query over the same candidates and distances has one answer.
pub proof fn lemma_first_min_unique(d: Seq<u64>, i: int, j: int)
    requires
        is_first_min(d, i),
        is_first_min(d, j),
    ensures
        i == j,
{
    if i < j {
        assert(d[i] > d[j]);
    } else if j < i {
        assert(d[j] > d[i]);
    }
}

/// Lookup determinism: two queries of the same point against the same
/// database scan the same candidates, and with the same distances they
/// select the same record.
pub proof fn lemma_lookup_deterministic(
    v: DatabaseView,
    lat: i32,
    lon: i32,
    d: Seq<u64>,
    i: int,
    j: int,
)
    requires
        d.len() == neighborhood(v.grid, cell_of(lat as int, lon as int)).len(),
        is_first_min(d, i),
        is_first_min(d, j),
    ensures
        neighborhood(v.grid, cell_of(lat as int, lon as int))[i] == neighborhood(
            v.grid,
            cell_of(lat as int, lon as int),
        )[j],
{
    lemma_first_min_unique(d, i, j);
}

/// The position of the first smallest distance; none for an empty list.
pub fn first_min_index(d: &Vec<u64>) -> (r: Option<usize>)
    ensures
        match r {
            Some(i) => is_first_min(d@, i as int),
            None => d@.len() == 0,
        },
{
    if d.len() == 0 {
        return None;
    }
    let mut best: usize = 0;
    let mut i: usize = 1;
    while i < d.len()
        invariant
            1 <= i <= d.len(),
            best < i,
            forall|j: int| 0 <= j < i ==> d@[best as int] <= #[trigger] d@[j],
            forall|j: int| 0 <= j < best ==> #[trigger] d@[j] > d@[best as int],
        decreases d.len() - i,
    {
        if d[i] < d[best] {
            best = i;
        }
        i = i + 1;
    }
    Some(best)
}

/// Why a database could not be loaded.
#[derive(Debug)]
pub enum LoadError {
    /// The bytes are not the layout of a database.
    Malformed,
    /// A record names a string, or a cell names a record, that does not exist.
    DanglingReference,
}

/// A loaded database, ready for queries. Every reference in it resolves.
pub struct Geocoder {
    db: Database,
}

impl Geocoder {
    #[verifier::type_invariant]
    spec fn refs_resolve(&self) -> bool {
        self.db@.refs_valid()
    }

    /// The database this geocoder answers from.
    pub closed spec fn view(&self) -> DatabaseView {
        self.db@
    }

    /// Whether every string index of every record and every grid id
    /// resolves.
    fn check_refs(db: &Database) -> (ok: bool)
        ensures
            ok == db@.refs_valid(),
    {
        let n_strings = db.strings.len();
        let n_places = db.places.len();
        let mut i: usize = 0;
        while i < n_places
            invariant
                n_strings == db@.strings.len(),
                n_places == db@.places.len(),
                i <= n_places,
                forall|j: int| #![auto] 0 <= j < i ==> indices_below(db@.places[j], n_strings as nat),
            decreases n_places - i,
        {
            let p = &db.places[i];
            if n_strings > u32::MAX as usize {
                // Every u32 index lies below the table size.
            } else if p.city >= n_strings as u32 || p.region >= n_strings as u32 || p.region_code
                >= n_strings as u32 || p.district >= n_strings as u32 || p.country_code
                >= n_strings as u32 || p.postal_code >= n_strings as u32 || p.timezone
                >= n_strings as u32 {
                assert(!indices_below(db@.places[i as int], n_strings as nat));
                return false;
            }
            i = i + 1;
        }
        let cells = cell_entries(&db.grid);
        let ghost cs = cells@.map_values(|e: ((i16, i16), Vec<u32>)| (e.0, e.1@));
        let mut c: usize = 0;
        while c < cells.len()
            invariant
                n_places == db@.places.len(),
                cs == cells@.map_values(|e: ((i16, i16), Vec<u32>)| (e.0, e.1@)),
                lists_cells(cs, db@.grid),
                c <= cells.len(),
                forall|a: int, j: int|
                    0 <= a < c && 0 <= j < cs[a].1.len() ==> #[trigger] cs[a].1[j] < n_places,
            decreases cells.len() - c,
        {
            let ids = &cells[c].1;
            let mut j: usize = 0;
            while j < ids.len()
                invariant
                    n_places == db@.places.len(),
                    c < cs.len(),
                    lists_cells(cs, db@.grid),
                    j <= ids.len(),
                    ids@ == cs[c as int].1,
                    forall|t: int| 0 <= t < j ==> #[trigger] ids@[t] < n_places,
                decreases ids.len() - j,
            {
                if ids[j] as usize >= n_places {
                    assert(db@.grid.contains_key(cs[c as int].0));
                    assert(db@.grid[cs[c as int].0][j as int] == ids@[j as int]);
                    return false;
                }
                j = j + 1;
            }
            c = c + 1;
        }
        proof {
            assert forall|k: (i16, i16), j: int| #[trigger]
                db@.grid.contains_key(k) && 0 <= j < db@.grid[k].len() implies #[trigger] db@.grid[k][j]
                < db@.places.len() by {
                let a = choose|a: int| 0 <= a < cs.len() && cs[a].0 == k;
                assert(cs[a].1[j] < n_places);
            }
        }
        true
    }

    /// Takes a database, checking that all of its references resolve; the
    /// database is handed back when one does not.
    pub fn from_database(db: Database) -> (r: Result<Geocoder, Database>)
        ensures
            match r {
                Ok(g) => g@ == db@,
                Err(d) => d@ == db@ && !db@.refs_valid(),
            },
    {
        if Self::check_refs(&db) {
            Ok(Geocoder { db })
        } else {
            Err(db)
        }
    }

    /// Loads a geocoder from the bytes of an encoded database.
    pub fn new(data: &[u8]) -> (r: Result<Geocoder, LoadError>)
        ensures
            match r {
                Ok(g) => database_at(data@) == Some(g@),
                Err(LoadError::Malformed) => database_at(data@) is None,
                Err(LoadError::DanglingReference) => database_at(data@) is Some && !(database_at(
                    data@,
                )->0).refs_valid(),
            },
    {
        match decode_database(data) {
            Ok(db) => match Self::from_database(db) {
                Ok(g) => Ok(g),
                Err(_) => Err(LoadError::DanglingReference),
            },
            Err(_) => Err(LoadError::Malformed),
        }
    }

    /// The database this geocoder answers from.
    pub fn database(&self) -> (r: &Database)
        ensures
            r@ == self@,
            r@.refs_valid(),
    {
        proof {
            use_type_invariant(self);
        }
        &self.db
    }

    /// The grid cell that a fixed-point query position falls in.
    pub fn grid_key(&self, lat: i32, lon: i32) -> (key: (i16, i16))
        requires
            valid_point(lat, lon),
        ensures
            key == cell_of(lat as int, lon as int),
            -900 <= key.0 <= 900,
            -1800 <= key.1 <= 1800,
    {
        cell_key(lat, lon)
    }

    /// Every record id in the 3x3 block of cells centred on `key`: the
    /// cells are scanned with the latitude offset outermost, each cell's ids
    /// in their stored order. Absent cells contribute nothing.
    pub fn candidates(&self, key: (i16, i16)) -> (r: Vec<u32>)
        requires
            i16::MIN < key.0 < i16::MAX,
            i16::MIN < key.1 < i16::MAX,
        ensures
            r@ == neighborhood(self@.grid, key),
            forall|j: int| 0 <= j < r.len() ==> #[trigger] r@[j] < self@.places.len(),
    {
        proof {
            use_type_invariant(self);
        }
        scan_block(&self.db.grid, key, Ghost(self@.places.len()))
    }

    /// Picks the candidate at the first smallest distance. `distances[i]`
    /// ranks `candidates[i]`; the caller computes it (great-circle distance,
    /// as an order-preserving integer key). None when there is no candidate.
    pub fn find_nearest(&self, candidates: &Vec<u32>, distances: &Vec<u64>) -> (r: Option<u32>)
        requires
            candidates.len() == distances.len(),
        ensures
            match r {
                Some(id) => exists|i: int| is_first_min(distances@, i) && id == candidates@[i],
                None => candidates.len() == 0,
            },
    {
        match first_min_index(distances) {
            Some(i) => Some(candidates[i]),
            None => None,
        }
    }

    /// The record `idx` with its text resolved through the string table.
    pub fn build_place(&self, idx: u32) -> (r: ResolvedPlace)
        requires
            idx < self@.places.len(),
        ensures
            resolves(self@, self@.places[idx as int], r),
    {
        proof {
            use_type_invariant(self);
        }
        let p = &self.db.places[idx as usize];
        assert(indices_below(self@.places[idx as int], self@.strings.len()));
        ResolvedPlace {
            city: self.db.strings[p.city as usize].clone(),
            region: self.db.strings[p.region as usize].clone(),
            region_code: self.db.strings[p.region_code as usize].clone(),
            district: self.db.strings[p.district as usize].clone(),
            country_code: self.db.strings[p.country_code as usize].clone(),
            postal_code: self.db.strings[p.postal_code as usize].clone(),
            timezone: self.db.strings[p.timezone as usize].clone(),
            lat: p.lat,
            lon: p.lon,
        }
    }
}

/// `r` is record `p` of `db` with every index replaced by its string.
pub open spec fn resolves(db: DatabaseView, p: CompactPlace, r: ResolvedPlace) -> bool {
    &&& r.city@ == db.strings[p.city as int]
    &&& r.region@ == db.strings[p.region as int]
    &&& r.region_code@ == db.strings[p.region_code as int]
    &&& r.district@ == db.strings[p.district as int]
    &&& r.country_code@ == db.strings[p.country_code as int]
    &&& r.postal_code@ == db.strings[p.postal_code as int]
    &&& r.timezone@ == db.strings[p.timezone as int]
    &&& r.lat == p.lat
    &&& r.lon == p.lon
}

} // verus!
