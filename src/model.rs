//! The records of the spatial database and of the build pipeline.
use crate::coords::{cell_of, valid_point};
use crate::fxmap::{cells_view, CellMap};
use vstd::prelude::*;

verus! {

/// A place as stored: seven indices into the string table and a fixed-point
/// position (degrees times 100,000). Its position in the record array is its
/// id in the grid index.
#[derive(Clone, Copy, Debug, PartialEq, Eq, Structural)]
pub struct CompactPlace {
    /// Index of the city name.
    pub city: u32,
    /// Index of the region name.
    pub region: u32,
    /// Index of the ISO 3166-2 region code.
    pub region_code: u32,
    /// Index of the district name.
    pub district: u32,
    /// Index of the ISO 3166-1 country code.
    pub country_code: u32,
    /// Index of the postal code.
    pub postal_code: u32,
    /// Index of the IANA timezone identifier.
    pub timezone: u32,
    /// Latitude in fixed point.
    pub lat: i32,
    /// Longitude in fixed point.
    pub lon: i32,
}

/// Every string index of a record is below `n`.
pub open spec fn indices_below(p: CompactPlace, n: nat) -> bool {
    &&& p.city < n
    &&& p.region < n
    &&& p.region_code < n
    &&& p.district < n
    &&& p.country_code < n
    &&& p.postal_code < n
    &&& p.timezone < n
}

/// The database: string table, records, and the grid index from cell to the
/// ids of the records in that cell.
pub struct Database {
    /// The string table; no text occurs twice.
    pub strings: Vec<String>,
    /// All records.
    pub places: Vec<CompactPlace>,
    /// Grid cell to record ids.
    pub grid: CellMap<Vec<u32>>,
}

/// What a database holds, as mathematical values.
pub struct DatabaseView {
    pub strings: Seq<Seq<char>>,
    pub places: Seq<CompactPlace>,
    pub grid: Map<(i16, i16), Seq<u32>>,
}

impl View for Database {
    type V = DatabaseView;

    open spec fn view(&self) -> DatabaseView {
        DatabaseView {
            strings: self.strings@.map_values(|s: String| s@),
            places: self.places@,
            grid: cells_view(self.grid@),
        }
    }
}

impl DatabaseView {
    /// Every reference in the database resolves: string indices lie inside
    /// the table and grid ids inside the record array.
    pub open spec fn refs_valid(self) -> bool {
        &&& forall|i: int| #![auto] 0 <= i < self.places.len() ==> indices_below(
            self.places[i],
            self.strings.len(),
        )
        &&& forall|k: (i16, i16), j: int| #[trigger]
            self.grid.contains_key(k) && 0 <= j < self.grid[k].len() ==> #[trigger] self.grid[k][j]
                < self.places.len()
    }
}

/// A place of the build pipeline, before its text is interned.
#[derive(Clone, Debug)]
pub struct RawPlace {
    pub city: String,
    pub region: String,
    pub region_code: String,
    pub district: String,
    pub country_code: String,
    pub postal_code: String,
    pub timezone: String,
    /// Latitude in fixed point.
    pub lat: i32,
    /// Longitude in fixed point.
    pub lon: i32,
}

/// A postal code record of the build pipeline.
#[derive(Clone, Debug)]
pub struct PostalCode {
    /// ISO 3166-1 country code.
    pub country: String,
    /// The postal code itself.
    pub code: String,
    /// District or county name.
    pub district: String,
    /// Latitude in fixed point.
    pub lat: i32,
    /// Longitude in fixed point.
    pub lon: i32,
}

/// A record with its text resolved through the string table, ready to be
/// handed to enrichment.
#[derive(Clone, Debug)]
pub struct ResolvedPlace {
    pub city: String,
    pub region: String,
    pub region_code: String,
    pub district: String,
    pub country_code: String,
    pub postal_code: String,
    pub timezone: String,
    /// Latitude in fixed point.
    pub lat: i32,
    /// Longitude in fixed point.
    pub lon: i32,
}

/// The grid cell of a record.
pub open spec fn place_cell(p: CompactPlace) -> (i16, i16) {
    cell_of(p.lat as int, p.lon as int)
}

/// Every record of a sequence lies in the valid coordinate range.
pub open spec fn places_in_range(s: Seq<CompactPlace>) -> bool {
    forall|i: int| 0 <= i < s.len() ==> valid_point(#[trigger] s[i].lat, s[i].lon)
}

} // verus!
