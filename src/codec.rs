//! The binary layout of a database.
//!
//! In order: the string count (u64), then each string as a varint byte
//! length and its UTF-8 bytes; the record count (u64), then each record as
//! seven u32 string indices and two i32 coordinates; the cell count (u64),
//! then each cell as two i16 keys, its id count (u64) and its u32 ids. All
//! fixed-width integers are little-endian. A varint holds 7 bits per byte,
//! low group first, with the high bit set on every byte but the last.
use crate::fxmap::{cell_entries, cell_insert, cell_map_new, cells_view, lists_cells, CellMap};
use crate::model::{CompactPlace, Database, DatabaseView};
use vstd::bytes::*;
use vstd::prelude::*;
use vstd::slice::{slice_subrange, slice_to_vec};
use vstd::utf8::*;

verus! {

broadcast use vstd::utf8::encode_utf8_valid_utf8, vstd::utf8::encode_utf8_decode_utf8;

// ---------------------------------------------------------------------------
// Encoding
// ---------------------------------------------------------------------------

/// The varint encoding of `n`.
pub open spec fn varint_bytes(n: nat) -> Seq<u8>
    decreases n,
{
    if n < 128 {
        seq![n as u8]
    } else {
        seq![(n % 128 + 128) as u8] + varint_bytes(n / 128)
    }
}

/// A string: its UTF-8 byte length as a varint, then the bytes.
pub open spec fn string_bytes(s: Seq<char>) -> Seq<u8> {
    varint_bytes(encode_utf8(s).len()) + encode_utf8(s)
}

/// The strings of a table, one after another.
pub open spec fn strings_bytes(ss: Seq<Seq<char>>) -> Seq<u8>
    decreases ss.len(),
{
    if ss.len() == 0 {
        Seq::empty()
    } else {
        strings_bytes(ss.drop_last()) + string_bytes(ss.last())
    }
}

/// A record: seven indices, then latitude and longitude.
pub open spec fn place_bytes(p: CompactPlace) -> Seq<u8> {
    spec_u32_to_le_bytes(p.city) + spec_u32_to_le_bytes(p.region) + spec_u32_to_le_bytes(
        p.region_code,
    ) + spec_u32_to_le_bytes(p.district) + spec_u32_to_le_bytes(p.country_code)
        + spec_u32_to_le_bytes(p.postal_code) + spec_u32_to_le_bytes(p.timezone)
        + spec_u32_to_le_bytes(p.lat as u32) + spec_u32_to_le_bytes(p.lon as u32)
}

/// The records, one after another.
pub open spec fn places_bytes(ps: Seq<CompactPlace>) -> Seq<u8>
    decreases ps.len(),
{
    if ps.len() == 0 {
        Seq::empty()
    } else {
        places_bytes(ps.drop_last()) + place_bytes(ps.last())
    }
}

/// A list of ids, one after another.
pub open spec fn ids_bytes(ids: Seq<u32>) -> Seq<u8>
    decreases ids.len(),
{
    if ids.len() == 0 {
        Seq::empty()
    } else {
        ids_bytes(ids.drop_last()) + spec_u32_to_le_bytes(ids.last())
    }
}

/// A cell: its key, its id count, its ids.
pub open spec fn cell_bytes(c: ((i16, i16), Seq<u32>)) -> Seq<u8> {
    spec_u16_to_le_bytes(c.0.0 as u16) + spec_u16_to_le_bytes(c.0.1 as u16) + spec_u64_to_le_bytes(
        c.1.len() as u64,
    ) + ids_bytes(c.1)
}

/// The cells, one after another.
pub open spec fn cells_bytes(cs: Seq<((i16, i16), Seq<u32>)>) -> Seq<u8>
    decreases cs.len(),
{
    if cs.len() == 0 {
        Seq::empty()
    } else {
        cells_bytes(cs.drop_last()) + cell_bytes(cs.last())
    }
}

/// A whole database whose grid is listed as `cells`.
pub open spec fn database_bytes(
    strings: Seq<Seq<char>>,
    places: Seq<CompactPlace>,
    cells: Seq<((i16, i16), Seq<u32>)>,
) -> Seq<u8> {
    spec_u64_to_le_bytes(strings.len() as u64) + strings_bytes(strings) + spec_u64_to_le_bytes(
        places.len() as u64,
    ) + places_bytes(places) + spec_u64_to_le_bytes(cells.len() as u64) + cells_bytes(cells)
}

/// Every count and length of a database fits the 64-bit fields of the layout.
pub open spec fn fits_layout(v: DatabaseView) -> bool {
    &&& v.strings.len() <= u64::MAX
    &&& forall|i: int| 0 <= i < v.strings.len() ==> encode_utf8(#[trigger] v.strings[i]).len() <= u64::MAX
    &&& v.places.len() <= u64::MAX
    &&& v.grid.dom().len() <= u64::MAX
    &&& forall|k: (i16, i16)| #[trigger] v.grid.contains_key(k) ==> v.grid[k].len() <= u64::MAX
}

/// `bytes` encodes `v`: the cells of its grid are written in some order.
pub open spec fn encodes(v: DatabaseView, bytes: Seq<u8>) -> bool {
    &&& fits_layout(v)
    &&& exists|cells: Seq<((i16, i16), Seq<u32>)>|
        lists_cells(cells, v.grid) && bytes == #[trigger] database_bytes(v.strings, v.places, cells)
}

fn write_varint(out: &mut Vec<u8>, value: u64)
    ensures
        final(out)@ == old(out)@ + varint_bytes(value as nat),
{
    let mut v = value;
    while v >= 128
        invariant
            out@ + varint_bytes(v as nat) == old(out)@ + varint_bytes(value as nat),
        decreases v,
    {
        let ghost before = out@;
        out.push((v % 128 + 128) as u8);
        assert(varint_bytes(v as nat) == seq![(v % 128 + 128) as u8] + varint_bytes((v / 128) as nat));
        assert(before + varint_bytes(v as nat) =~= out@ + varint_bytes((v / 128) as nat));
        v = v / 128;
    }
    out.push(v as u8);
    assert(varint_bytes(v as nat) == seq![v as u8]);
}

fn write_u64(out: &mut Vec<u8>, x: u64)
    ensures
        final(out)@ == old(out)@ + spec_u64_to_le_bytes(x),
{
    let mut b = u64_to_le_bytes(x);
    out.append(&mut b);
}

fn write_u32(out: &mut Vec<u8>, x: u32)
    ensures
        final(out)@ == old(out)@ + spec_u32_to_le_bytes(x),
{
    let mut b = u32_to_le_bytes(x);
    out.append(&mut b);
}

fn write_u16(out: &mut Vec<u8>, x: u16)
    ensures
        final(out)@ == old(out)@ + spec_u16_to_le_bytes(x),
{
    let mut b = u16_to_le_bytes(x);
    out.append(&mut b);
}

fn write_string(out: &mut Vec<u8>, s: &String)
    ensures
        final(out)@ == old(out)@ + string_bytes(s@),
        encode_utf8(s@).len() <= u64::MAX,
{
    let bytes = s.as_str().as_bytes();
    write_varint(out, bytes.len() as u64);
    let mut v = slice_to_vec(bytes);
    out.append(&mut v);
    assert(old(out)@ + varint_bytes(bytes@.len()) + bytes@ =~= old(out)@ + string_bytes(s@));
}

fn write_place(out: &mut Vec<u8>, p: &CompactPlace)
    ensures
        final(out)@ == old(out)@ + place_bytes(*p),
{
    write_u32(out, p.city);
    write_u32(out, p.region);
    write_u32(out, p.region_code);
    write_u32(out, p.district);
    write_u32(out, p.country_code);
    write_u32(out, p.postal_code);
    write_u32(out, p.timezone);
    write_u32(out, p.lat as u32);
    write_u32(out, p.lon as u32);
}

/// The view of a listing of cells.
pub open spec fn cells_seq(cells: Seq<((i16, i16), Vec<u32>)>) -> Seq<((i16, i16), Seq<u32>)> {
    cells.map_values(|e: ((i16, i16), Vec<u32>)| (e.0, e.1@))
}

/// The view of a string table.
pub open spec fn strings_seq(strings: Seq<String>) -> Seq<Seq<char>> {
    strings.map_values(|s: String| s@)
}

fn write_strings(out: &mut Vec<u8>, strings: &Vec<String>)
    ensures
        final(out)@ == old(out)@ + strings_bytes(strings_seq(strings@)),
        forall|i: int|
            0 <= i < strings.len() ==> encode_utf8(#[trigger] strings_seq(strings@)[i]).len()
                <= u64::MAX,
{
    let mut i: usize = 0;
    while i < strings.len()
        invariant
            i <= strings.len(),
            out@ == old(out)@ + strings_bytes(strings_seq(strings@).take(i as int)),
            forall|j: int|
                0 <= j < i ==> encode_utf8(#[trigger] strings_seq(strings@)[j]).len() <= u64::MAX,
        decreases strings.len() - i,
    {
        write_string(out, &strings[i]);
        let ghost t = strings_seq(strings@).take(i + 1);
        assert(t.drop_last() =~= strings_seq(strings@).take(i as int));
        i = i + 1;
    }
    assert(strings_seq(strings@).take(i as int) =~= strings_seq(strings@));
}

fn write_places(out: &mut Vec<u8>, places: &Vec<CompactPlace>)
    ensures
        final(out)@ == old(out)@ + places_bytes(places@),
{
    let mut i: usize = 0;
    while i < places.len()
        invariant
            i <= places.len(),
            out@ == old(out)@ + places_bytes(places@.take(i as int)),
        decreases places.len() - i,
    {
        write_place(out, &places[i]);
        assert(places@.take(i + 1).drop_last() =~= places@.take(i as int));
        i = i + 1;
    }
    assert(places@.take(i as int) =~= places@);
}

fn write_ids(out: &mut Vec<u8>, ids: &Vec<u32>)
    ensures
        final(out)@ == old(out)@ + ids_bytes(ids@),
{
    let mut i: usize = 0;
    while i < ids.len()
        invariant
            i <= ids.len(),
            out@ == old(out)@ + ids_bytes(ids@.take(i as int)),
        decreases ids.len() - i,
    {
        write_u32(out, ids[i]);
        assert(ids@.take(i + 1).drop_last() =~= ids@.take(i as int));
        i = i + 1;
    }
    assert(ids@.take(i as int) =~= ids@);
}

fn write_cells(out: &mut Vec<u8>, cells: &Vec<((i16, i16), Vec<u32>)>)
    ensures
        final(out)@ == old(out)@ + cells_bytes(cells_seq(cells@)),
        forall|i: int| 0 <= i < cells.len() ==> (#[trigger] cells_seq(cells@)[i]).1.len() <= u64::MAX,
{
    let mut i: usize = 0;
    while i < cells.len()
        invariant
            i <= cells.len(),
            out@ == old(out)@ + cells_bytes(cells_seq(cells@).take(i as int)),
            forall|j: int| 0 <= j < i ==> (#[trigger] cells_seq(cells@)[j]).1.len() <= u64::MAX,
        decreases cells.len() - i,
    {
        let (key, ids) = (&cells[i].0, &cells[i].1);
        write_u16(out, key.0 as u16);
        write_u16(out, key.1 as u16);
        write_u64(out, ids.len() as u64);
        write_ids(out, ids);
        let ghost t = cells_seq(cells@).take(i + 1);
        assert(t.drop_last() =~= cells_seq(cells@).take(i as int));
        assert(t.last() == (key@, ids@));
        i = i + 1;
    }
    assert(cells_seq(cells@).take(i as int) =~= cells_seq(cells@));
}

/// Writes a string table, a record array and a listing of grid cells in
/// the layout of this module.
pub fn encode_parts(
    strings: &Vec<String>,
    places: &Vec<CompactPlace>,
    cells: &Vec<((i16, i16), Vec<u32>)>,
) -> (out: Vec<u8>)
    ensures
        out@ == database_bytes(strings_seq(strings@), places@, cells_seq(cells@)),
        forall|i: int|
            0 <= i < strings.len() ==> encode_utf8(#[trigger] strings_seq(strings@)[i]).len()
                <= u64::MAX,
        forall|i: int| 0 <= i < cells.len() ==> (#[trigger] cells_seq(cells@)[i]).1.len() <= u64::MAX,
        strings@.len() <= u64::MAX,
        places@.len() <= u64::MAX,
        cells@.len() <= u64::MAX,
{
    let mut out: Vec<u8> = Vec::new();
    write_u64(&mut out, strings.len() as u64);
    write_strings(&mut out, strings);
    write_u64(&mut out, places.len() as u64);
    write_places(&mut out, places);
    write_u64(&mut out, cells.len() as u64);
    write_cells(&mut out, cells);
    assert(out@ =~= database_bytes(strings_seq(strings@), places@, cells_seq(cells@)));
    out
}

/// Serializes a database. The cells of the grid are written in the order in
/// which the map yields them; which order that is does not change what the
/// bytes decode to.
pub fn encode_database(db: &Database) -> (out: Vec<u8>)
    ensures
        encodes(db@, out@),
{
    let cells = cell_entries(&db.grid);
    let out = encode_parts(&db.strings, &db.places, &cells);
    proof {
        let cs = cells_seq(cells@);
        assert(cs == cells@.map_values(|e: ((i16, i16), Vec<u32>)| (e.0, e.1@)));
        assert(lists_cells(cs, db@.grid));
        assert(out@ == database_bytes(db@.strings, db@.places, cs));
        assert forall|k: (i16, i16)| #[trigger] db@.grid.contains_key(k) implies db@.grid[k].len()
            <= u64::MAX by {
            let i = choose|i: int| 0 <= i < cs.len() && cs[i].0 == k;
            assert(db@.grid[cs[i].0] == cs[i].1);
        }
        assert(db@.grid.dom().len() == cs.len());
        assert(db@.strings =~= strings_seq(db.strings@));
        assert(fits_layout(db@));
        assert(lists_cells(cs, db@.grid) && out@ == database_bytes(db@.strings, db@.places, cs));
    }
    out
}

// ---------------------------------------------------------------------------
// Decoding
// ---------------------------------------------------------------------------

/// The little-endian u64 at byte `p`.
pub open spec fn u64_at(b: Seq<u8>, p: int) -> u64 {
    spec_u64_from_le_bytes(b.subrange(p, p + 8))
}

/// The little-endian u32 at byte `p`.
pub open spec fn u32_at(b: Seq<u8>, p: int) -> u32 {
    spec_u32_from_le_bytes(b.subrange(p, p + 4))
}

/// The little-endian u16 at byte `p`.
pub open spec fn u16_at(b: Seq<u8>, p: int) -> u16 {
    spec_u16_from_le_bytes(b.subrange(p, p + 2))
}

/// Where the varint that starts at byte `p` ends (one past its last byte):
/// after the first byte whose high bit is clear.
pub open spec fn varint_end(b: Seq<u8>, p: int) -> Option<int>
    decreases b.len() - p,
{
    if 0 <= p < b.len() {
        if b[p] < 128 {
            Some(p + 1)
        } else {
            varint_end(b, p + 1)
        }
    } else {
        None
    }
}

/// The number that the 7-bit groups of `s` spell, low group first.
pub open spec fn varint_value(s: Seq<u8>) -> nat
    decreases s.len(),
{
    if s.len() == 0 {
        0
    } else {
        (s[0] % 128) as nat + 128 * varint_value(s.drop_first())
    }
}

/// The varint at byte `p` and the position after it. It fails when the
/// input ends first, when it is longer than ten bytes, or when its value
/// does not fit 64 bits.
pub open spec fn varint_at(b: Seq<u8>, p: int) -> Option<(u64, int)> {
    match varint_end(b, p) {
        Some(e) => if e - p <= 10 && varint_value(b.subrange(p, e)) <= u64::MAX {
            Some((varint_value(b.subrange(p, e)) as u64, e))
        } else {
            None
        },
        None => None,
    }
}

/// The string at byte `p` and the position after it; its bytes must be
/// valid UTF-8.
pub open spec fn string_at(b: Seq<u8>, p: int) -> Option<(Seq<char>, int)> {
    match varint_at(b, p) {
        Some((n, q)) => if q + n <= b.len() && valid_utf8(b.subrange(q, q + n)) {
            Some((decode_utf8(b.subrange(q, q + n)), q + n))
        } else {
            None
        },
        None => None,
    }
}

/// `n` strings from byte `p` on, and the position after them.
pub open spec fn strings_at(b: Seq<u8>, p: int, n: nat) -> Option<(Seq<Seq<char>>, int)>
    decreases n,
{
    if n == 0 {
        Some((Seq::empty(), p))
    } else {
        match strings_at(b, p, (n - 1) as nat) {
            Some((ss, q)) => match string_at(b, q) {
                Some((s, r)) => Some((ss.push(s), r)),
                None => None,
            },
            None => None,
        }
    }
}

/// Size of a record in bytes.
pub const PLACE_BYTES: usize = 36;

/// The record whose 36 bytes start at `p`.
pub open spec fn place_at(b: Seq<u8>, p: int) -> CompactPlace {
    CompactPlace {
        city: u32_at(b, p),
        region: u32_at(b, p + 4),
        region_code: u32_at(b, p + 8),
        district: u32_at(b, p + 12),
        country_code: u32_at(b, p + 16),
        postal_code: u32_at(b, p + 20),
        timezone: u32_at(b, p + 24),
        lat: u32_at(b, p + 28) as i32,
        lon: u32_at(b, p + 32) as i32,
    }
}

/// `n` records from byte `p` on, and the position after them.
pub open spec fn places_at(b: Seq<u8>, p: int, n: nat) -> Option<(Seq<CompactPlace>, int)> {
    if p + 36 * n <= b.len() {
        Some((Seq::new(n, |i: int| place_at(b, p + 36 * i)), p + 36 * n))
    } else {
        None
    }
}

/// `n` ids from byte `p` on.
pub open spec fn ids_at(b: Seq<u8>, p: int, n: nat) -> Seq<u32> {
    Seq::new(n, |i: int| u32_at(b, p + 4 * i))
}

/// The cell at byte `p` and the position after it.
pub open spec fn cell_at(b: Seq<u8>, p: int) -> Option<(((i16, i16), Seq<u32>), int)> {
    if p + 12 <= b.len() {
        let n = u64_at(b, p + 4) as nat;
        if p + 12 + 4 * n <= b.len() {
            Some(
                (
                    ((u16_at(b, p) as i16, u16_at(b, p + 2) as i16), ids_at(b, p + 12, n)),
                    p + 12 + 4 * n,
                ),
            )
        } else {
            None
        }
    } else {
        None
    }
}

/// `n` cells from byte `p` on, and the position after them.
pub open spec fn cells_at(b: Seq<u8>, p: int, n: nat) -> Option<(Seq<((i16, i16), Seq<u32>)>, int)>
    decreases n,
{
    if n == 0 {
        Some((Seq::empty(), p))
    } else {
        match cells_at(b, p, (n - 1) as nat) {
            Some((cs, q)) => match cell_at(b, q) {
                Some((c, r)) => Some((cs.push(c), r)),
                None => None,
            },
            None => None,
        }
    }
}

/// The grid that a listing of cells builds; a later cell with the same key
/// replaces an earlier one.
pub open spec fn cells_map(cs: Seq<((i16, i16), Seq<u32>)>) -> Map<(i16, i16), Seq<u32>>
    decreases cs.len(),
{
    if cs.len() == 0 {
        Map::empty()
    } else {
        cells_map(cs.drop_last()).insert(cs.last().0, cs.last().1)
    }
}

/// What a byte sequence decodes to, if it is well formed. Bytes after the
/// grid are ignored.
pub open spec fn database_at(b: Seq<u8>) -> Option<DatabaseView> {
    if b.len() < 8 {
        None
    } else {
        match strings_at(b, 8, u64_at(b, 0) as nat) {
            None => None,
            Some((ss, q)) => if q + 8 > b.len() {
                None
            } else {
                match places_at(b, q + 8, u64_at(b, q) as nat) {
                    None => None,
                    Some((ps, r)) => if r + 8 > b.len() {
                        None
                    } else {
                        match cells_at(b, r + 8, u64_at(b, r) as nat) {
                            None => None,
                            Some((cs, _e)) => Some(
                                DatabaseView { strings: ss, places: ps, grid: cells_map(cs) },
                            ),
                        }
                    },
                }
            },
        }
    }
}

/// A byte sequence that is not the layout of any database.
#[derive(Debug)]
pub struct DecodeError;

/// Relies on `String::from_utf8`: it succeeds exactly on valid UTF-8, and
/// the string then holds the text those bytes encode.
#[verifier::external_body]
fn string_from_utf8(bytes: Vec<u8>) -> (r: Option<String>)
    ensures
        match r {
            Some(s) => valid_utf8(bytes@) && s@ == decode_utf8(bytes@),
            None => !valid_utf8(bytes@),
        },
{
    String::from_utf8(bytes).ok()
}

/// `128` to the power `e`.
pub open spec fn pow128(e: nat) -> nat
    decreases e,
{
    if e == 0 {
        1
    } else {
        128 * pow128((e - 1) as nat)
    }
}

proof fn lemma_pow128_monotone(i: nat, j: nat)
    requires
        i <= j,
    ensures
        pow128(i) <= pow128(j),
    decreases j,
{
    if i < j {
        lemma_pow128_monotone(i, (j - 1) as nat);
    }
}

proof fn lemma_pow128_values()
    ensures
        pow128(8) == 0x100_0000_0000_0000,
        pow128(9) == 0x8000_0000_0000_0000,
{
    assert(pow128(0) == 1);
    assert(pow128(1) == 128);
    assert(pow128(2) == 0x4000);
    assert(pow128(3) == 0x20_0000);
    assert(pow128(4) == 0x1000_0000);
    assert(pow128(5) == 0x8_0000_0000);
    assert(pow128(6) == 0x400_0000_0000);
    assert(pow128(7) == 0x2_0000_0000_0000);
    assert(pow128(8) == 0x100_0000_0000_0000);
    assert(pow128(9) == 0x8000_0000_0000_0000);
}

fn read_u64(data: &[u8], pos: usize) -> (x: u64)
    requires
        pos + 8 <= data@.len(),
    ensures
        x == u64_at(data@, pos as int),
{
    let n = data.len();
    u64_from_le_bytes(slice_subrange(data, pos, pos + 8))
}

fn read_u32(data: &[u8], pos: usize) -> (x: u32)
    requires
        pos + 4 <= data@.len(),
    ensures
        x == u32_at(data@, pos as int),
{
    let n = data.len();
    u32_from_le_bytes(slice_subrange(data, pos, pos + 4))
}

fn read_u16(data: &[u8], pos: usize) -> (x: u16)
    requires
        pos + 2 <= data@.len(),
    ensures
        x == u16_at(data@, pos as int),
{
    let n = data.len();
    u16_from_le_bytes(slice_subrange(data, pos, pos + 2))
}

proof fn lemma_varint_value_push(s: Seq<u8>, x: u8)
    ensures
        varint_value(s.push(x)) == varint_value(s) + (x % 128) as nat * pow128(s.len()),
    decreases s.len(),
{
    if s.len() == 0 {
        assert(s.push(x).drop_first() =~= Seq::<u8>::empty());
        assert(varint_value(Seq::<u8>::empty()) == 0);
        assert(s.push(x)[0] == x);
        assert(pow128(0) == 1);
    } else {
        assert(s.push(x)[0] == s[0]);
        assert(s.push(x).drop_first() =~= s.drop_first().push(x));
        lemma_varint_value_push(s.drop_first(), x);
        let a = varint_value(s.drop_first());
        let c = (x % 128) as nat;
        let q = pow128((s.len() - 1) as nat);
        assert(pow128(s.len()) == 128 * q);
        assert(128 * (a + c * q) == 128 * a + c * (128 * q)) by (nonlinear_arith);
        assert(varint_value(s.push(x)) == (s[0] % 128) as nat + 128 * varint_value(
            s.drop_first().push(x),
        ));
    }
}

proof fn lemma_varint_end_after(b: Seq<u8>, p: int)
    requires
        varint_end(b, p) is Some,
    ensures
        varint_end(b, p)->0 > p,
        varint_end(b, p)->0 <= b.len(),
    decreases b.len() - p,
{
    if 0 <= p < b.len() && b[p] >= 128 {
        lemma_varint_end_after(b, p + 1);
    }
}

fn read_varint(data: &[u8], pos: usize) -> (r: Option<(u64, usize)>)
    requires
        pos <= data@.len(),
    ensures
        match r {
            Some((v, e)) => varint_at(data@, pos as int) == Some((v, e as int)),
            None => varint_at(data@, pos as int) is None,
        },
{
    let ghost b = data@;
    let mut result: u64 = 0;
    let mut scale: u64 = 1;
    let mut i: usize = 0;
    let len = data.len();
    proof {
        assert(b.subrange(pos as int, pos as int) =~= Seq::<u8>::empty());
        lemma_pow128_values();
    }
    loop
        invariant
            pos <= data@.len(),
            len == data@.len(),
            b == data@,
            i <= 9,
            pos + i <= len,
            scale as int == pow128(i as nat),
            pow128(8) == 0x100_0000_0000_0000,
            pow128(9) == 0x8000_0000_0000_0000,
            result as int == varint_value(b.subrange(pos as int, pos + i)),
            result < scale,
            varint_end(b, pos as int) == varint_end(b, pos + i),
        decreases 10 - i,
    {
        if i >= len - pos {
            return None;
        }
        let byte = data[pos + i];
        let low = (byte % 128) as u64;
        proof {
            lemma_pow128_monotone(i as nat, 9);
            if i < 9 {
                lemma_pow128_monotone(i as nat, 8);
            }
            assert(b.subrange(pos as int, pos + i + 1) =~= b.subrange(pos as int, pos + i).push(
                byte,
            ));
            lemma_varint_value_push(b.subrange(pos as int, pos + i), byte);
        }
        if i == 9 && low > 1 {
            proof {
                if byte < 128 {
                    assert(varint_end(b, pos as int) == Some(pos + 10));
                    assert(varint_value(b.subrange(pos as int, pos + 10)) >= 2 * pow128(9))
                        by (nonlinear_arith)
                        requires
                            varint_value(b.subrange(pos as int, pos + 10)) == result + low * pow128(
                                9,
                            ),
                            low > 1,
                            result >= 0,
                    ;
                } else {
                    if varint_end(b, pos + 10) is Some {
                        lemma_varint_end_after(b, pos + 10);
                    }
                }
            }
            return None;
        }
        assert(result + low * scale < 128 * scale) by (nonlinear_arith)
            requires
                result < scale,
                low < 128,
        ;
        if i < 9 {
            assert(low * scale <= 127 * 0x100_0000_0000_0000) by (nonlinear_arith)
                requires
                    low < 128,
                    scale <= 0x100_0000_0000_0000,
            ;
        } else {
            assert(low * scale <= scale) by (nonlinear_arith)
                requires
                    low <= 1,
                    scale >= 0,
            ;
        }
        result = result + low * scale;
        if byte < 128 {
            assert(varint_end(b, pos as int) == Some(pos + i + 1));
            return Some((result, pos + i + 1));
        }
        if i == 9 {
            proof {
                if varint_end(b, pos + 10) is Some {
                    lemma_varint_end_after(b, pos + 10);
                }
            }
            return None;
        }
        assert(scale * 128 == pow128((i + 1) as nat));
        assert(result < scale * 128);
        scale = scale * 128;
        i = i + 1;
    }
}

fn read_string(data: &[u8], pos: usize) -> (r: Option<(String, usize)>)
    requires
        pos <= data@.len(),
    ensures
        match r {
            Some((s, e)) => string_at(data@, pos as int) == Some((s@, e as int)),
            None => string_at(data@, pos as int) is None,
        },
{
    let len = data.len();
    let (n, q) = match read_varint(data, pos) {
        Some(x) => x,
        None => return None,
    };
    proof {
        lemma_varint_end_after(data@, pos as int);
    }
    if n > (len - q) as u64 {
        return None;
    }
    let e = q + n as usize;
    let bytes = slice_to_vec(slice_subrange(data, q, e));
    match string_from_utf8(bytes) {
        Some(s) => Some((s, e)),
        None => None,
    }
}

proof fn lemma_strings_at_fail(b: Seq<u8>, p: int, m: nat, n: nat)
    requires
        m <= n,
        strings_at(b, p, m) is None,
    ensures
        strings_at(b, p, n) is None,
    decreases n,
{
    if m < n {
        lemma_strings_at_fail(b, p, m, (n - 1) as nat);
    }
}

proof fn lemma_strings_at_after(b: Seq<u8>, p: int, n: nat)
    requires
        strings_at(b, p, n) is Some,
        0 <= p <= b.len(),
    ensures
        p <= (strings_at(b, p, n)->0).1 <= b.len(),
    decreases n,
{
    if n > 0 {
        lemma_strings_at_after(b, p, (n - 1) as nat);
        let q = (strings_at(b, p, (n - 1) as nat)->0).1;
        lemma_varint_end_after(b, q);
    }
}

fn read_strings(data: &[u8], pos: usize, count: u64) -> (r: Option<(Vec<String>, usize)>)
    requires
        pos <= data@.len(),
    ensures
        match r {
            Some((v, e)) => strings_at(data@, pos as int, count as nat) == Some(
                (strings_seq(v@), e as int),
            ),
            None => strings_at(data@, pos as int, count as nat) is None,
        },
{
    let mut v: Vec<String> = Vec::new();
    let mut p = pos;
    let mut k: u64 = 0;
    assert(strings_seq(v@) =~= Seq::<Seq<char>>::empty());
    while k < count
        invariant
            pos <= p <= data@.len(),
            k <= count,
            strings_at(data@, pos as int, k as nat) == Some((strings_seq(v@), p as int)),
        decreases count - k,
    {
        match read_string(data, p) {
            Some((s, e)) => {
                proof {
                    lemma_strings_at_after(data@, pos as int, (k + 1) as nat);
                }
                let ghost before = v@;
                let ghost text = s@;
                v.push(s);
                assert(strings_seq(v@) =~= strings_seq(before).push(text));
                p = e;
                k = k + 1;
            },
            None => {
                proof {
                    lemma_strings_at_fail(data@, pos as int, (k + 1) as nat, count as nat);
                }
                return None;
            },
        }
    }
    Some((v, p))
}

fn read_place(data: &[u8], p: usize) -> (r: CompactPlace)
    requires
        p + 36 <= data@.len(),
    ensures
        r == place_at(data@, p as int),
{
    let _len = data.len();
    CompactPlace {
        city: read_u32(data, p),
        region: read_u32(data, p + 4),
        region_code: read_u32(data, p + 8),
        district: read_u32(data, p + 12),
        country_code: read_u32(data, p + 16),
        postal_code: read_u32(data, p + 20),
        timezone: read_u32(data, p + 24),
        lat: #[verifier::truncate] (read_u32(data, p + 28) as i32),
        lon: #[verifier::truncate] (read_u32(data, p + 32) as i32),
    }
}

fn read_places(data: &[u8], pos: usize, count: u64) -> (r: Option<(Vec<CompactPlace>, usize)>)
    requires
        pos <= data@.len(),
    ensures
        match r {
            Some((v, e)) => places_at(data@, pos as int, count as nat) == Some((v@, e as int)),
            None => places_at(data@, pos as int, count as nat) is None,
        },
{
    let len = data.len();
    let room = (len - pos) / PLACE_BYTES;
    if count > room as u64 {
        assert(pos + 36 * count > len) by (nonlinear_arith)
            requires
                count > room,
                room == (len - pos) / 36,
                pos <= len,
        ;
        return None;
    }
    let n = count as usize;
    assert(pos + 36 * n <= len) by (nonlinear_arith)
        requires
            n <= room,
            room == (len - pos) / 36,
            pos <= len,
    ;
    let mut v: Vec<CompactPlace> = Vec::new();
    let mut i: usize = 0;
    while i < n
        invariant
            len == data@.len(),
            i <= n,
            pos + 36 * n <= len,
            v@ == Seq::new(i as nat, |j: int| place_at(data@, pos + 36 * j)),
        decreases n - i,
    {
        assert(pos + 36 * i + 36 <= pos + 36 * n) by (nonlinear_arith)
            requires
                i < n,
        ;
        let p = pos + PLACE_BYTES * i;
        v.push(read_place(data, p));
        i = i + 1;
        assert(v@ =~= Seq::new(i as nat, |j: int| place_at(data@, pos + 36 * j)));
    }
    Some((v, pos + PLACE_BYTES * n))
}

fn read_ids(data: &[u8], pos: usize, n: usize) -> (v: Vec<u32>)
    requires
        pos + 4 * n <= data@.len(),
    ensures
        v@ == ids_at(data@, pos as int, n as nat),
{
    let len = data.len();
    let mut v: Vec<u32> = Vec::new();
    let mut i: usize = 0;
    while i < n
        invariant
            len == data@.len(),
            i <= n,
            pos + 4 * n <= data@.len(),
            v@ == Seq::new(i as nat, |j: int| u32_at(data@, pos + 4 * j)),
        decreases n - i,
    {
        assert(pos + 4 * i + 4 <= pos + 4 * n) by (nonlinear_arith)
            requires
                i < n,
        ;
        v.push(read_u32(data, pos + 4 * i));
        i = i + 1;
        assert(v@ =~= Seq::new(i as nat, |j: int| u32_at(data@, pos + 4 * j)));
    }
    v
}

fn read_cell(data: &[u8], pos: usize) -> (r: Option<((i16, i16), Vec<u32>, usize)>)
    requires
        pos <= data@.len(),
    ensures
        match r {
            Some((k, v, e)) => cell_at(data@, pos as int) == Some(((k, v@), e as int)),
            None => cell_at(data@, pos as int) is None,
        },
{
    let len = data.len();
    if len - pos < 12 {
        return None;
    }
    let a = read_u16(data, pos) as i16;
    let b = read_u16(data, pos + 2) as i16;
    let count = read_u64(data, pos + 4);
    let room = (len - pos - 12) / 4;
    if count > room as u64 {
        assert(pos + 12 + 4 * count > len) by (nonlinear_arith)
            requires
                count > room,
                room == (len - pos - 12) / 4,
                pos + 12 <= len,
        ;
        return None;
    }
    let n = count as usize;
    assert(pos + 12 + 4 * n <= len) by (nonlinear_arith)
        requires
            n <= room,
            room == (len - pos - 12) / 4,
            pos + 12 <= len,
    ;
    let ids = read_ids(data, pos + 12, n);
    Some(((a, b), ids, pos + 12 + 4 * n))
}

proof fn lemma_cells_at_fail(b: Seq<u8>, p: int, m: nat, n: nat)
    requires
        m <= n,
        cells_at(b, p, m) is None,
    ensures
        cells_at(b, p, n) is None,
    decreases n,
{
    if m < n {
        lemma_cells_at_fail(b, p, m, (n - 1) as nat);
    }
}

fn read_cells(data: &[u8], pos: usize, count: u64) -> (r: Option<CellMap<Vec<u32>>>)
    requires
        pos <= data@.len(),
    ensures
        match r {
            Some(g) => cells_at(data@, pos as int, count as nat) is Some && cells_view(g@)
                == cells_map((cells_at(data@, pos as int, count as nat)->0).0),
            None => cells_at(data@, pos as int, count as nat) is None,
        },
{
    let mut g: CellMap<Vec<u32>> = cell_map_new();
    let mut p = pos;
    let mut k: u64 = 0;
    let ghost mut cs: Seq<((i16, i16), Seq<u32>)> = Seq::empty();
    assert(cells_view(g@) =~= cells_map(cs));
    while k < count
        invariant
            pos <= p <= data@.len(),
            k <= count,
            cells_at(data@, pos as int, k as nat) == Some((cs, p as int)),
            cells_view(g@) == cells_map(cs),
        decreases count - k,
    {
        match read_cell(data, p) {
            Some((key, ids, e)) => {
                let ghost c = (key, ids@);
                cell_insert(&mut g, key, ids);
                proof {
                    let ncs = cs.push(c);
                    assert(ncs.drop_last() =~= cs);
                    assert(cells_view(g@) =~= cells_map(ncs));
                    cs = ncs;
                }
                p = e;
                k = k + 1;
            },
            None => {
                proof {
                    lemma_cells_at_fail(data@, pos as int, (k + 1) as nat, count as nat);
                }
                return None;
            },
        }
    }
    Some(g)
}

/// Reads a database back from its bytes. It fails exactly when the bytes
/// end early, a varint is malformed, or a string is not valid UTF-8; it
/// checks no references.
pub fn decode_database(data: &[u8]) -> (r: Result<Database, DecodeError>)
    ensures
        match r {
            Ok(db) => database_at(data@) == Some(db@),
            Err(_) => database_at(data@) is None,
        },
{
    let len = data.len();
    if len < 8 {
        return Err(DecodeError);
    }
    let n_strings = read_u64(data, 0);
    let (strings, q) = match read_strings(data, 8, n_strings) {
        Some(x) => x,
        None => return Err(DecodeError),
    };
    if len - q < 8 {
        return Err(DecodeError);
    }
    let n_places = read_u64(data, q);
    let (places, r) = match read_places(data, q + 8, n_places) {
        Some(x) => x,
        None => return Err(DecodeError),
    };
    if len - r < 8 {
        return Err(DecodeError);
    }
    let n_cells = read_u64(data, r);
    let grid = match read_cells(data, r + 8, n_cells) {
        Some(g) => g,
        None => return Err(DecodeError),
    };
    let db = Database { strings, places, grid };
    assert(db@.strings == strings_seq(db.strings@));
    Ok(db)
}

} // verus!
