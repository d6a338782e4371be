//! Turning the tab-separated rows of the source data into raw records.
//!
//! The caller splits each row into its fields and converts the decimal
//! coordinates to fixed point; everything else is decided here: which rows
//! are kept, and how the administrative-code tables name regions,
//! districts and region codes.
use crate::builder::Builder;
use crate::fxmap::{id_get, id_insert, text_get, text_insert, text_lookup, text_put, TextMap};
use crate::model::{PostalCode, RawPlace};
use vstd::prelude::*;
use vstd::string::{StrSliceExecFns, StringExecFns};

verus! {

/// The GeoNames feature codes of populated places: a place row is kept
/// only when its feature code is one of these.
pub open spec fn feature_allowed(code: Seq<char>) -> bool {
    ||| code == "PPL"@
    ||| code == "PPLA"@
    ||| code == "PPLA2"@
    ||| code == "PPLA3"@
    ||| code == "PPLA4"@
    ||| code == "PPLC"@
    ||| code == "PPLG"@
    ||| code == "PPLS"@
}

/// A 32-bit unsigned decimal as std reads it: an optional `+`, then one or
/// more ASCII digits, with a value that fits.
pub open spec fn decimal_u32(s: Seq<char>) -> Option<u32> {
    let d = if s.len() > 0 && s[0] == '+' {
        s.drop_first()
    } else {
        s
    };
    if d.len() > 0 && (forall|i: int| 0 <= i < d.len() ==> '0' <= #[trigger] d[i] <= '9')
        && digits_value(d) <= u32::MAX {
        Some(digits_value(d) as u32)
    } else {
        None
    }
}

/// The number that a string of decimal digits spells.
pub open spec fn digits_value(d: Seq<char>) -> nat
    decreases d.len(),
{
    if d.len() == 0 {
        0
    } else {
        digits_value(d.drop_last()) * 10 + (d.last() as nat - '0' as nat) as nat
    }
}

/// Relies on `str::parse::<u32>` (`u32::from_str`): it accepts an optional
/// `+` followed by decimal digits whose value fits in 32 bits, and nothing
/// else.
#[verifier::external_body]
fn parse_u32(s: &str) -> (r: Option<u32>)
    ensures
        r == decimal_u32(s@),
{
    s.parse::<u32>().ok()
}

/// Whether two texts are equal, character by character.
pub fn same_text(a: &str, b: &str) -> (r: bool)
    ensures
        r == (a@ == b@),
{
    let n = a.unicode_len();
    if n != b.unicode_len() {
        return false;
    }
    let mut i: usize = 0;
    while i < n
        invariant
            n == a@.len(),
            n == b@.len(),
            i <= n,
            forall|j: int| 0 <= j < i ==> a@[j] == b@[j],
        decreases n - i,
    {
        if a.get_char(i) != b.get_char(i) {
            return false;
        }
        i = i + 1;
    }
    assert(a@ =~= b@);
    true
}

fn concat(a: &str, b: &str) -> (r: String)
    ensures
        r@ == a@ + b@,
{
    let mut s = String::from_str(a);
    s.append(b);
    s
}

fn joined(a: &str, sep: &str, b: &str) -> (r: String)
    ensures
        r@ == a@ + sep@ + b@,
{
    let mut s = String::from_str(a);
    s.append(sep);
    s.append(b);
    s
}

fn is_feature_allowed(code: &str) -> (r: bool)
    ensures
        r == feature_allowed(code@),
{
    same_text(code, "PPL") || same_text(code, "PPLA") || same_text(code, "PPLA2") || same_text(
        code,
        "PPLA3",
    ) || same_text(code, "PPLA4") || same_text(code, "PPLC") || same_text(code, "PPLG")
        || same_text(code, "PPLS")
}

/// The text stored under `k`, or the empty text.
pub open spec fn text_or_empty(m: Map<String, String>, k: Seq<char>) -> Seq<char> {
    match text_lookup(m, k) {
        Some(v) => v@,
        None => Seq::empty(),
    }
}

fn lookup_or_empty(m: &TextMap<String>, k: &str) -> (r: String)
    ensures
        r@ == text_or_empty(m@, k@),
{
    match text_get(m, k) {
        Some(v) => v.clone(),
        None => String::new(),
    }
}

/// The region code of a place whose admin1 code is `code` and whose admin1
/// key is `key`: none for the placeholder code `00` or an empty code;
/// otherwise the ISO code recorded for the region's GeoNames id, and the
/// admin1 code itself when there is none.
pub open spec fn region_code_of(b: Builder, key: Seq<char>, code: Seq<char>) -> Seq<char> {
    if code == "00"@ || code.len() == 0 {
        Seq::empty()
    } else {
        match text_lookup(b.admin1@, key + ":gid"@) {
            Some(gid) => match decimal_u32(gid@) {
                Some(id) => if b.admin1_iso@.contains_key(id) {
                    b.admin1_iso@[id]@
                } else {
                    code
                },
                None => code,
            },
            None => code,
        }
    }
}

/// The record that a place row of `country` makes, if the row is kept:
/// it needs at least 18 fields and an allowed feature code (field 7). The
/// name is field 2, the admin1 and admin2 codes fields 10 and 11, the
/// timezone field 17.
pub open spec fn place_of_row(
    b: Builder,
    country: Seq<char>,
    fields: Seq<Seq<char>>,
    lat: i32,
    lon: i32,
) -> Option<(Seq<char>, Seq<char>, Seq<char>, Seq<char>, Seq<char>)> {
    if fields.len() < 18 || !feature_allowed(fields[7]) {
        None
    } else {
        let key1 = country + "."@ + fields[10];
        Some(
            (
                fields[2],
                text_or_empty(b.admin1@, key1),
                region_code_of(b, key1, fields[10]),
                text_or_empty(b.admin2@, key1 + "."@ + fields[11]),
                fields[17],
            ),
        )
    }
}

/// The views of a list of fields.
pub open spec fn fields_view(fields: Seq<String>) -> Seq<Seq<char>> {
    fields.map_values(|f: String| f@)
}

impl Builder {
    /// Reads one line of an admin-code table (code, name, ascii name,
    /// GeoNames id, ...): with at least four fields the code is mapped to
    /// the name, and the code followed by `:gid` to the GeoNames id. Shorter
    /// lines change nothing.
    pub fn add_admin_row(table: &mut TextMap<String>, fields: &Vec<String>)
        ensures
            fields.len() < 4 ==> final(table)@ == old(table)@,
            fields.len() >= 4 ==> exists|gid_key: String|
                gid_key@ == fields@[0]@ + ":gid"@ && #[trigger] final(table)@ == text_put(
                    text_put(old(table)@, fields@[0], fields@[1]),
                    gid_key,
                    fields@[3],
                ),
    {
        if fields.len() >= 4 {
            text_insert(table, fields[0].clone(), fields[1].clone());
            let gid_key = concat(fields[0].as_str(), ":gid");
            text_insert(table, gid_key, fields[3].clone());
        }
    }

    /// Reads one line of the alternate-names table (id, GeoNames id, kind,
    /// name, ...): a line of kind `abbr` with at least four fields and a
    /// decimal GeoNames id maps that id to the name, the region's ISO code.
    pub fn add_iso_row(&mut self, fields: &Vec<String>)
        ensures
            final(self).admin1@ == old(self).admin1@,
            final(self).admin2@ == old(self).admin2@,
            final(self).admin1_iso@ == if fields.len() >= 4 && fields@[2]@ == "abbr"@ && decimal_u32(
                fields@[1]@,
            ) is Some {
                old(self).admin1_iso@.insert(decimal_u32(fields@[1]@)->0, fields@[3])
            } else {
                old(self).admin1_iso@
            },
    {
        if fields.len() >= 4 && same_text(fields[2].as_str(), "abbr") {
            match parse_u32(fields[1].as_str()) {
                Some(id) => id_insert(&mut self.admin1_iso, id, fields[3].clone()),
                None => {},
            }
        }
    }

    /// The raw record that a place row of `country` makes, or none when the
    /// row is dropped (fewer than 18 fields, or a feature code that is not a
    /// populated place). `lat` and `lon` are fields 4 and 5 in fixed point.
    pub fn place_from_row(&self, country: &str, fields: &Vec<String>, lat: i32, lon: i32) -> (r:
        Option<RawPlace>)
        ensures
            match place_of_row(*self, country@, fields_view(fields@), lat, lon) {
                None => r is None,
                Some((city, region, region_code, district, timezone)) => (r matches Some(p) && p.city@
                    == city && p.region@ == region && p.region_code@ == region_code && p.district@
                    == district && p.country_code@ == country@ && p.postal_code@.len() == 0
                    && p.timezone@ == timezone && p.lat == lat && p.lon == lon),
            },
    {
        if fields.len() < 18 || !is_feature_allowed(fields[7].as_str()) {
            return None;
        }
        let admin1_code = fields[10].as_str();
        let key1 = joined(country, ".", admin1_code);
        let region = lookup_or_empty(&self.admin1, key1.as_str());
        let key2 = joined(key1.as_str(), ".", fields[11].as_str());
        let district = lookup_or_empty(&self.admin2, key2.as_str());
        let region_code = if same_text(admin1_code, "00") || admin1_code.is_empty() {
            String::new()
        } else {
            let gid_key = concat(key1.as_str(), ":gid");
            match text_get(&self.admin1, gid_key.as_str()) {
                Some(gid) => match parse_u32(gid.as_str()) {
                    Some(id) => match id_get(&self.admin1_iso, id) {
                        Some(code) => code.clone(),
                        None => String::from_str(admin1_code),
                    },
                    None => String::from_str(admin1_code),
                },
                None => String::from_str(admin1_code),
            }
        };
        Some(
            RawPlace {
                city: fields[2].clone(),
                region,
                region_code,
                district,
                country_code: String::from_str(country),
                postal_code: String::new(),
                timezone: fields[17].clone(),
                lat,
                lon,
            },
        )
    }
}

/// The postal record that a row of the postal-code table makes, or none
/// when it has fewer than 11 fields: country is field 0, the code field 1,
/// the district field 5. `lat` and `lon` are fields 9 and 10 in fixed point.
pub fn postal_from_row(fields: &Vec<String>, lat: i32, lon: i32) -> (r: Option<PostalCode>)
    ensures
        fields.len() < 11 ==> r is None,
        fields.len() >= 11 ==> (r matches Some(c) && c.country == fields@[0] && c.code == fields@[1]
            && c.district == fields@[5] && c.lat == lat && c.lon == lon),
{
    if fields.len() < 11 {
        return None;
    }
    Some(
        PostalCode {
            country: fields[0].clone(),
            code: fields[1].clone(),
            district: fields[5].clone(),
            lat,
            lon,
        },
    )
}

} // verus!
