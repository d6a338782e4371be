//! Decoding the bytes of an encoded database gives the database back.
use crate::codec::{
    cell_at, cell_bytes, cells_at, cells_bytes, cells_map, database_at, database_bytes, encodes,
    ids_at, ids_bytes, place_at, place_bytes, places_at, places_bytes, pow128, string_at,
    string_bytes, strings_at, strings_bytes, u16_at, u32_at, u64_at, varint_at, varint_bytes,
    varint_end, varint_value,
};
use crate::fxmap::lists_cells;
use crate::model::{CompactPlace, DatabaseView};
use vstd::bytes::*;
use vstd::prelude::*;
use vstd::utf8::*;

verus! {

broadcast use vstd::utf8::encode_utf8_valid_utf8, vstd::utf8::encode_utf8_decode_utf8;

/// `s` stands in `b` from byte `p` on.
pub open spec fn holds_at(b: Seq<u8>, p: int, s: Seq<u8>) -> bool {
    0 <= p && p + s.len() <= b.len() && b.subrange(p, p + s.len()) == s
}

proof fn lemma_split(b: Seq<u8>, p: int, s1: Seq<u8>, s2: Seq<u8>)
    requires
        holds_at(b, p, s1 + s2),
    ensures
        holds_at(b, p, s1),
        holds_at(b, p + s1.len(), s2),
{
    let whole = b.subrange(p, p + s1.len() + s2.len());
    assert(whole == s1 + s2);
    assert(b.subrange(p, p + s1.len()) =~= whole.subrange(0, s1.len() as int));
    assert(whole.subrange(0, s1.len() as int) =~= s1);
    assert(b.subrange(p + s1.len(), p + s1.len() + s2.len()) =~= whole.subrange(
        s1.len() as int,
        (s1.len() + s2.len()) as int,
    ));
    assert(whole.subrange(s1.len() as int, (s1.len() + s2.len()) as int) =~= s2);
}

proof fn lemma_u64_at(b: Seq<u8>, p: int, x: u64)
    requires
        holds_at(b, p, spec_u64_to_le_bytes(x)),
    ensures
        u64_at(b, p) == x,
        spec_u64_to_le_bytes(x).len() == 8,
{
    lemma_auto_spec_u64_to_from_le_bytes();
}

proof fn lemma_u32_at(b: Seq<u8>, p: int, x: u32)
    requires
        holds_at(b, p, spec_u32_to_le_bytes(x)),
    ensures
        u32_at(b, p) == x,
        spec_u32_to_le_bytes(x).len() == 4,
{
    lemma_auto_spec_u32_to_from_le_bytes();
}

proof fn lemma_u16_at(b: Seq<u8>, p: int, x: u16)
    requires
        holds_at(b, p, spec_u16_to_le_bytes(x)),
    ensures
        u16_at(b, p) == x,
        spec_u16_to_le_bytes(x).len() == 2,
{
    lemma_auto_spec_u16_to_from_le_bytes();
}

proof fn lemma_varint_bytes(n: nat)
    ensures
        varint_value(varint_bytes(n)) == n,
        varint_bytes(n).len() >= 1,
        forall|i: int| 0 <= i < varint_bytes(n).len() - 1 ==> #[trigger] varint_bytes(n)[i] >= 128,
        varint_bytes(n).last() < 128,
        n < pow128(9) * 2 ==> varint_bytes(n).len() <= 10,
    decreases n,
{
    if n >= 128 {
        lemma_varint_bytes(n / 128);
        let head = seq![(n % 128 + 128) as u8];
        let tail = varint_bytes(n / 128);
        assert(varint_bytes(n) == head + tail);
        assert((head + tail).drop_first() =~= tail);
        assert((head + tail)[0] == (n % 128 + 128) as u8);
        assert(((n % 128 + 128) as u8) % 128 == n % 128);
        assert forall|i: int| 0 <= i < varint_bytes(n).len() - 1 implies #[trigger] varint_bytes(
            n,
        )[i] >= 128 by {
            if i > 0 {
                assert(varint_bytes(n)[i] == tail[i - 1]);
            }
        }
        assert(n == n % 128 + 128 * (n / 128));
        if n < pow128(9) * 2 {
            assert(pow128(9) == 128 * pow128(8));
            assert(n / 128 < pow128(8) * 2);
            lemma_varint_len_bound(n / 128);
        }
    } else {
        assert(varint_bytes(n).drop_first() =~= Seq::<u8>::empty());
        assert(varint_bytes(n)[0] == n as u8);
        assert(varint_value(Seq::<u8>::empty()) == 0);
    }
}

proof fn lemma_varint_len_bound(n: nat)
    requires
        n < pow128(8) * 2,
    ensures
        varint_bytes(n).len() <= 9,
    decreases n,
{
    lemma_varint_len_bound_k(n, 8);
}

proof fn lemma_varint_len_bound_k(n: nat, k: nat)
    requires
        n < pow128(k) * 2,
    ensures
        varint_bytes(n).len() <= k + 1,
    decreases k,
{
    if n >= 128 {
        if k == 0 {
            assert(pow128(0) == 1);
        } else {
            assert(pow128(k) == 128 * pow128((k - 1) as nat));
            assert(n / 128 < pow128((k - 1) as nat) * 2);
            lemma_varint_len_bound_k(n / 128, (k - 1) as nat);
        }
    }
}

proof fn lemma_varint_end(b: Seq<u8>, p: int, s: Seq<u8>)
    requires
        holds_at(b, p, s),
        s.len() >= 1,
        forall|i: int| 0 <= i < s.len() - 1 ==> #[trigger] s[i] >= 128,
        s.last() < 128,
    ensures
        varint_end(b, p) == Some(p + s.len()),
    decreases s.len(),
{
    assert(b[p] == s[0]);
    if s.len() > 1 {
        let t = s.drop_first();
        assert(b.subrange(p + 1, p + 1 + t.len()) =~= t);
        lemma_varint_end(b, p + 1, t);
    }
}

proof fn lemma_varint_at(b: Seq<u8>, p: int, n: u64)
    requires
        holds_at(b, p, varint_bytes(n as nat)),
    ensures
        varint_at(b, p) == Some((n, p + varint_bytes(n as nat).len())),
{
    lemma_varint_bytes(n as nat);
    assert(pow128(9) == 0x8000_0000_0000_0000) by {
        assert(pow128(0) == 1);
        assert(pow128(1) == 128);
        assert(pow128(2) == 0x4000);
        assert(pow128(3) == 0x20_0000);
        assert(pow128(4) == 0x1000_0000);
        assert(pow128(5) == 0x8_0000_0000);
        assert(pow128(6) == 0x400_0000_0000);
        assert(pow128(7) == 0x2_0000_0000_0000);
        assert(pow128(8) == 0x100_0000_0000_0000);
    }
    lemma_varint_end(b, p, varint_bytes(n as nat));
}

proof fn lemma_string_at(b: Seq<u8>, p: int, s: Seq<char>)
    requires
        holds_at(b, p, string_bytes(s)),
        encode_utf8(s).len() <= u64::MAX,
    ensures
        string_at(b, p) == Some((s, p + string_bytes(s).len())),
{
    let n = encode_utf8(s).len();
    lemma_split(b, p, varint_bytes(n), encode_utf8(s));
    lemma_varint_at(b, p, n as u64);
    let q = p + varint_bytes(n).len();
    assert(b.subrange(q, q + n) == encode_utf8(s));
}

proof fn lemma_strings_at(b: Seq<u8>, p: int, ss: Seq<Seq<char>>)
    requires
        holds_at(b, p, strings_bytes(ss)),
        forall|i: int| 0 <= i < ss.len() ==> encode_utf8(#[trigger] ss[i]).len() <= u64::MAX,
    ensures
        strings_at(b, p, ss.len()) == Some((ss, p + strings_bytes(ss).len())),
    decreases ss.len(),
{
    if ss.len() > 0 {
        let init = ss.drop_last();
        lemma_split(b, p, strings_bytes(init), string_bytes(ss.last()));
        lemma_strings_at(b, p, init);
        lemma_string_at(b, p + strings_bytes(init).len(), ss.last());
        assert(init.push(ss.last()) =~= ss);
    } else {
        assert(ss =~= Seq::<Seq<char>>::empty());
    }
}

proof fn lemma_i32_u32(x: i32)
    ensures
        (x as u32) as i32 == x,
{
    assert((x as u32) as i32 == x) by (bit_vector);
}

proof fn lemma_i16_u16(x: i16)
    ensures
        (x as u16) as i16 == x,
{
    assert((x as u16) as i16 == x) by (bit_vector);
}

proof fn lemma_place_at(b: Seq<u8>, p: int, x: CompactPlace)
    requires
        holds_at(b, p, place_bytes(x)),
    ensures
        place_at(b, p) == x,
        place_bytes(x).len() == 36,
{
    let f = |v: u32| spec_u32_to_le_bytes(v);
    lemma_auto_spec_u32_to_from_le_bytes();
    let s0 = f(x.city);
    let s1 = s0 + f(x.region);
    let s2 = s1 + f(x.region_code);
    let s3 = s2 + f(x.district);
    let s4 = s3 + f(x.country_code);
    let s5 = s4 + f(x.postal_code);
    let s6 = s5 + f(x.timezone);
    let s7 = s6 + f(x.lat as u32);
    assert(place_bytes(x) == s7 + f(x.lon as u32));
    lemma_split(b, p, s7, f(x.lon as u32));
    lemma_split(b, p, s6, f(x.lat as u32));
    lemma_split(b, p, s5, f(x.timezone));
    lemma_split(b, p, s4, f(x.postal_code));
    lemma_split(b, p, s3, f(x.country_code));
    lemma_split(b, p, s2, f(x.district));
    lemma_split(b, p, s1, f(x.region_code));
    lemma_split(b, p, s0, f(x.region));
    lemma_u32_at(b, p, x.city);
    lemma_u32_at(b, p + 4, x.region);
    lemma_u32_at(b, p + 8, x.region_code);
    lemma_u32_at(b, p + 12, x.district);
    lemma_u32_at(b, p + 16, x.country_code);
    lemma_u32_at(b, p + 20, x.postal_code);
    lemma_u32_at(b, p + 24, x.timezone);
    lemma_u32_at(b, p + 28, x.lat as u32);
    lemma_u32_at(b, p + 32, x.lon as u32);
    lemma_i32_u32(x.lat);
    lemma_i32_u32(x.lon);
}

proof fn lemma_places_bytes(b: Seq<u8>, p: int, ps: Seq<CompactPlace>)
    requires
        holds_at(b, p, places_bytes(ps)),
    ensures
        places_bytes(ps).len() == 36 * ps.len(),
        forall|i: int| 0 <= i < ps.len() ==> place_at(b, p + 36 * i) == #[trigger] ps[i],
    decreases ps.len(),
{
    if ps.len() > 0 {
        let init = ps.drop_last();
        lemma_split(b, p, places_bytes(init), place_bytes(ps.last()));
        lemma_places_bytes(b, p, init);
        lemma_place_at(b, p + places_bytes(init).len(), ps.last());
        assert forall|i: int| 0 <= i < ps.len() implies place_at(b, p + 36 * i) == #[trigger] ps[i] by {
            if i < ps.len() - 1 {
                assert(ps[i] == init[i]);
            }
        }
    }
}

proof fn lemma_places_at(b: Seq<u8>, p: int, ps: Seq<CompactPlace>)
    requires
        holds_at(b, p, places_bytes(ps)),
    ensures
        places_at(b, p, ps.len()) == Some((ps, p + places_bytes(ps).len())),
{
    lemma_places_bytes(b, p, ps);
    assert(Seq::new(ps.len(), |i: int| place_at(b, p + 36 * i)) =~= ps);
}

proof fn lemma_ids_bytes(b: Seq<u8>, p: int, ids: Seq<u32>)
    requires
        holds_at(b, p, ids_bytes(ids)),
    ensures
        ids_bytes(ids).len() == 4 * ids.len(),
        ids_at(b, p, ids.len()) == ids,
    decreases ids.len(),
{
    if ids.len() > 0 {
        let init = ids.drop_last();
        lemma_split(b, p, ids_bytes(init), spec_u32_to_le_bytes(ids.last()));
        lemma_ids_bytes(b, p, init);
        lemma_u32_at(b, p + ids_bytes(init).len(), ids.last());
        assert forall|i: int| 0 <= i < ids.len() implies u32_at(b, p + 4 * i) == #[trigger] ids[i] by {
            if i < ids.len() - 1 {
                assert(ids_at(b, p, init.len())[i] == init[i]);
            }
        }
    }
    assert(ids_at(b, p, ids.len()) =~= ids);
}

proof fn lemma_cell_at(b: Seq<u8>, p: int, c: ((i16, i16), Seq<u32>))
    requires
        holds_at(b, p, cell_bytes(c)),
        c.1.len() <= u64::MAX,
    ensures
        cell_at(b, p) == Some((c, p + cell_bytes(c).len())),
{
    let s0 = spec_u16_to_le_bytes(c.0.0 as u16);
    let s1 = s0 + spec_u16_to_le_bytes(c.0.1 as u16);
    let s2 = s1 + spec_u64_to_le_bytes(c.1.len() as u64);
    assert(cell_bytes(c) == s2 + ids_bytes(c.1));
    lemma_split(b, p, s2, ids_bytes(c.1));
    lemma_split(b, p, s1, spec_u64_to_le_bytes(c.1.len() as u64));
    lemma_split(b, p, s0, spec_u16_to_le_bytes(c.0.1 as u16));
    lemma_u16_at(b, p, c.0.0 as u16);
    lemma_u16_at(b, p + 2, c.0.1 as u16);
    lemma_u64_at(b, p + 4, c.1.len() as u64);
    lemma_ids_bytes(b, p + 12, c.1);
    lemma_i16_u16(c.0.0);
    lemma_i16_u16(c.0.1);
}

proof fn lemma_cells_at(b: Seq<u8>, p: int, cs: Seq<((i16, i16), Seq<u32>)>)
    requires
        holds_at(b, p, cells_bytes(cs)),
        forall|i: int| 0 <= i < cs.len() ==> (#[trigger] cs[i]).1.len() <= u64::MAX,
    ensures
        cells_at(b, p, cs.len()) == Some((cs, p + cells_bytes(cs).len())),
    decreases cs.len(),
{
    if cs.len() > 0 {
        let init = cs.drop_last();
        lemma_split(b, p, cells_bytes(init), cell_bytes(cs.last()));
        lemma_cells_at(b, p, init);
        lemma_cell_at(b, p + cells_bytes(init).len(), cs.last());
        assert(init.push(cs.last()) =~= cs);
    } else {
        assert(cs =~= Seq::<((i16, i16), Seq<u32>)>::empty());
    }
}

proof fn lemma_cells_map(cs: Seq<((i16, i16), Seq<u32>)>)
    requires
        forall|i: int, j: int| 0 <= i < j < cs.len() ==> cs[i].0 != cs[j].0,
    ensures
        forall|i: int|
            0 <= i < cs.len() ==> cells_map(cs).contains_key(#[trigger] cs[i].0) && cells_map(
                cs,
            )[cs[i].0] == cs[i].1,
        forall|k: (i16, i16)| #[trigger]
            cells_map(cs).contains_key(k) ==> exists|i: int| 0 <= i < cs.len() && cs[i].0 == k,
    decreases cs.len(),
{
    if cs.len() > 0 {
        let init = cs.drop_last();
        lemma_cells_map(init);
        assert forall|i: int|
            0 <= i < cs.len() implies cells_map(cs).contains_key(#[trigger] cs[i].0) && cells_map(
            cs,
        )[cs[i].0] == cs[i].1 by {
            if i < cs.len() - 1 {
                assert(init[i] == cs[i]);
            }
        }
        assert forall|k: (i16, i16)| #[trigger] cells_map(cs).contains_key(k) implies exists|i: int|
            0 <= i < cs.len() && cs[i].0 == k by {
            if k != cs.last().0 {
                assert(cells_map(init).contains_key(k));
                let i = choose|i: int| 0 <= i < init.len() && init[i].0 == k;
                assert(cs[i].0 == k);
            } else {
                assert(cs[cs.len() - 1].0 == k);
            }
        }
    }
}

/// Round trip: bytes that encode a database decode to that same database,
/// with an equal string table, an equal record sequence and, cell for cell,
/// equal grid lists.
pub proof fn lemma_encode_decode(v: DatabaseView, bytes: Seq<u8>)
    requires
        encodes(v, bytes),
    ensures
        database_at(bytes) == Some(v),
{
    let cells = choose|cells: Seq<((i16, i16), Seq<u32>)>|
        lists_cells(cells, v.grid) && bytes == #[trigger] database_bytes(v.strings, v.places, cells);
    let a = spec_u64_to_le_bytes(v.strings.len() as u64);
    let sb = strings_bytes(v.strings);
    let c = spec_u64_to_le_bytes(v.places.len() as u64);
    let pb = places_bytes(v.places);
    let e = spec_u64_to_le_bytes(cells.len() as u64);
    let cb = cells_bytes(cells);
    assert(bytes == a + sb + c + pb + e + cb);
    assert(holds_at(bytes, 0, bytes)) by {
        assert(bytes.subrange(0, bytes.len() as int) =~= bytes);
    }
    lemma_split(bytes, 0, a + sb + c + pb + e, cb);
    lemma_split(bytes, 0, a + sb + c + pb, e);
    lemma_split(bytes, 0, a + sb + c, pb);
    lemma_split(bytes, 0, a + sb, c);
    lemma_split(bytes, 0, a, sb);
    lemma_u64_at(bytes, 0, v.strings.len() as u64);
    lemma_strings_at(bytes, 8, v.strings);
    let q: int = 8 + sb.len() as int;
    lemma_u64_at(bytes, q, v.places.len() as u64);
    lemma_places_at(bytes, q + 8, v.places);
    let r: int = q + 8 + pb.len() as int;
    lemma_u64_at(bytes, r, cells.len() as u64);
    assert forall|i: int| 0 <= i < cells.len() implies (#[trigger] cells[i]).1.len() <= u64::MAX by {
        assert(v.grid.contains_key(cells[i].0));
    }
    lemma_cells_at(bytes, r + 8, cells);
    lemma_cells_map(cells);
    assert(cells_map(cells) =~= v.grid);
}

} // verus!
