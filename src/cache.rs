use vstd::prelude::*;
use crate::geometry::{Triangle, Vertex};
use crate::heightmap::{Heightmap, RtinError};
use crate::label::{is_power_of_two, num_triangles};
use crate::ratio::Ratio;
use crate::rtin::{
    is_preprocess_result, node_fits, preprocess_heightmap, view_wf, within_limit, RtinData, RtinTriangle, RtinView,
    MAX_GRID_SIZE,
};

verus! {

/// Format version written after the magic tag.
pub const CACHE_VERSION: u32 = 1;

/// Bytes before the first triangle record.
pub const HEADER_LEN: usize = 20;

/// Bytes of one triangle record.
pub const RECORD_LEN: usize = 54;

pub open spec fn magic() -> Seq<u8> {
    seq![0x52u8, 0x54u8, 0x49u8, 0x4eu8]
}

pub open spec fn u16_le(v: u16) -> Seq<u8> {
    seq![(v & 0xff) as u8, ((v >> 8) & 0xff) as u8]
}

pub open spec fn u32_le(v: u32) -> Seq<u8> {
    seq![(v & 0xff) as u8, ((v >> 8) & 0xff) as u8, ((v >> 16) & 0xff) as u8, ((v >> 24) & 0xff) as u8]
}

pub open spec fn u64_le(v: u64) -> Seq<u8> {
    u32_le((v & 0xffff_ffff) as u32) + u32_le((v >> 32) as u32)
}

pub open spec fn u128_le(v: u128) -> Seq<u8> {
    u64_le((v & 0xffff_ffff_ffff_ffff) as u64) + u64_le((v >> 64) as u64)
}

pub open spec fn u16_at(b: Seq<u8>, off: int) -> u16 {
    (b[off] as u16) | ((b[off + 1] as u16) << 8)
}

pub open spec fn u32_at(b: Seq<u8>, off: int) -> u32 {
    (b[off] as u32) | ((b[off + 1] as u32) << 8) | ((b[off + 2] as u32) << 16) | ((b[off + 3] as u32)
        << 24)
}

pub open spec fn u64_at(b: Seq<u8>, off: int) -> u64 {
    (u32_at(b, off) as u64) | ((u32_at(b, off + 4) as u64) << 32)
}

pub open spec fn u128_at(b: Seq<u8>, off: int) -> u128 {
    (u64_at(b, off) as u128) | ((u64_at(b, off + 8) as u128) << 64)
}

pub open spec fn vertex_le(v: Vertex) -> Seq<u8> {
    u32_le(v.x) + u32_le(v.y) + u16_le(v.height)
}

/// One record: error numerator and denominator, then the three corners.
pub open spec fn record_le(t: RtinTriangle) -> Seq<u8> {
    u128_le(t.error.num) + u64_le(t.error.den) + vertex_le(t.vertices.a) + vertex_le(t.vertices.b)
        + vertex_le(t.vertices.c)
}

pub open spec fn records_le(ts: Seq<RtinTriangle>) -> Seq<u8>
    decreases ts.len(),
{
    if ts.len() == 0 {
        seq![]
    } else {
        records_le(ts.drop_last()) + record_le(ts.last())
    }
}

pub open spec fn header_le(v: RtinView) -> Seq<u8> {
    magic() + u32_le(CACHE_VERSION) + u32_le(v.grid_size) + u16_le(v.min_height) + u16_le(
        v.max_height,
    ) + u32_le(v.triangles.len() as u32)
}

/// The cache file of a hierarchy.
pub open spec fn encode_spec(v: RtinView) -> Seq<u8> {
    header_le(v) + records_le(v.triangles)
}

pub open spec fn vertex_from(b: Seq<u8>, off: int) -> Vertex {
    Vertex { x: u32_at(b, off), y: u32_at(b, off + 4), height: u16_at(b, off + 8) }
}

pub open spec fn record_from(b: Seq<u8>, off: int) -> RtinTriangle {
    RtinTriangle {
        error: Ratio { num: u128_at(b, off), den: u64_at(b, off + 16) },
        vertices: Triangle {
            a: vertex_from(b, off + 24),
            b: vertex_from(b, off + 34),
            c: vertex_from(b, off + 44),
        },
    }
}

/// What the bytes `b` hold, when they are a cache file: the magic tag,
/// version `CACHE_VERSION`, and exactly as many records as the header says.
pub open spec fn parse_spec(b: Seq<u8>) -> Option<RtinView> {
    if b.len() < 20 {
        None
    } else if b.take(4) != magic() || u32_at(b, 4) != CACHE_VERSION {
        None
    } else if b.len() != 20 + 54 * u32_at(b, 16) {
        None
    } else {
        Some(
            RtinView {
                grid_size: u32_at(b, 8),
                min_height: u16_at(b, 12),
                max_height: u16_at(b, 14),
                triangles: Seq::new(u32_at(b, 16) as nat, |i: int| record_from(b, 20 + 54 * i)),
            },
        )
    }
}

proof fn lemma_u16_round(b: Seq<u8>, off: int, v: u16)
    requires
        0 <= off,
        off + 2 <= b.len(),
        b.subrange(off, off + 2) == u16_le(v),
    ensures
        u16_at(b, off) == v,
{
    assert(b[off] == b.subrange(off, off + 2)[0]);
    assert(b[off + 1] == b.subrange(off, off + 2)[1]);
    assert((((v & 0xff) as u8) as u16) | (((((v >> 8) & 0xff) as u8) as u16) << 8) == v)
        by (bit_vector);
}

proof fn lemma_u32_round(b: Seq<u8>, off: int, v: u32)
    requires
        0 <= off,
        off + 4 <= b.len(),
        b.subrange(off, off + 4) == u32_le(v),
    ensures
        u32_at(b, off) == v,
{
    let s = b.subrange(off, off + 4);
    assert(b[off] == s[0] && b[off + 1] == s[1] && b[off + 2] == s[2] && b[off + 3] == s[3]);
    assert((((v & 0xff) as u8) as u32) | (((((v >> 8) & 0xff) as u8) as u32) << 8) | (((((v >> 16)
        & 0xff) as u8) as u32) << 16) | (((((v >> 24) & 0xff) as u8) as u32) << 24) == v)
        by (bit_vector);
}

proof fn lemma_u64_round(b: Seq<u8>, off: int, v: u64)
    requires
        0 <= off,
        off + 8 <= b.len(),
        b.subrange(off, off + 8) == u64_le(v),
    ensures
        u64_at(b, off) == v,
{
    let lo = (v & 0xffff_ffff) as u32;
    let hi = (v >> 32) as u32;
    assert(b.subrange(off, off + 4) =~= b.subrange(off, off + 8).subrange(0, 4));
    assert(b.subrange(off + 4, off + 8) =~= b.subrange(off, off + 8).subrange(4, 8));
    assert(u64_le(v).subrange(0, 4) =~= u32_le(lo));
    assert(u64_le(v).subrange(4, 8) =~= u32_le(hi));
    lemma_u32_round(b, off, lo);
    lemma_u32_round(b, off + 4, hi);
    assert(((((v & 0xffff_ffff) as u32) as u64) | ((((v >> 32) as u32) as u64) << 32)) == v)
        by (bit_vector);
}

proof fn lemma_u128_round(b: Seq<u8>, off: int, v: u128)
    requires
        0 <= off,
        off + 16 <= b.len(),
        b.subrange(off, off + 16) == u128_le(v),
    ensures
        u128_at(b, off) == v,
{
    let lo = (v & 0xffff_ffff_ffff_ffff) as u64;
    let hi = (v >> 64) as u64;
    assert(b.subrange(off, off + 8) =~= b.subrange(off, off + 16).subrange(0, 8));
    assert(b.subrange(off + 8, off + 16) =~= b.subrange(off, off + 16).subrange(8, 16));
    assert(u128_le(v).subrange(0, 8) =~= u64_le(lo));
    assert(u128_le(v).subrange(8, 16) =~= u64_le(hi));
    lemma_u64_round(b, off, lo);
    lemma_u64_round(b, off + 8, hi);
    assert(((((v & 0xffff_ffff_ffff_ffff) as u64) as u128) | ((((v >> 64) as u64) as u128) << 64))
        == v) by (bit_vector);
}

proof fn lemma_vertex_round(b: Seq<u8>, off: int, v: Vertex)
    requires
        0 <= off,
        off + 10 <= b.len(),
        b.subrange(off, off + 10) == vertex_le(v),
    ensures
        vertex_from(b, off) == v,
{
    let s = b.subrange(off, off + 10);
    assert(b.subrange(off, off + 4) =~= s.subrange(0, 4));
    assert(b.subrange(off + 4, off + 8) =~= s.subrange(4, 8));
    assert(b.subrange(off + 8, off + 10) =~= s.subrange(8, 10));
    assert(vertex_le(v).subrange(0, 4) =~= u32_le(v.x));
    assert(vertex_le(v).subrange(4, 8) =~= u32_le(v.y));
    assert(vertex_le(v).subrange(8, 10) =~= u16_le(v.height));
    lemma_u32_round(b, off, v.x);
    lemma_u32_round(b, off + 4, v.y);
    lemma_u16_round(b, off + 8, v.height);
}

proof fn lemma_record_round(b: Seq<u8>, off: int, t: RtinTriangle)
    requires
        0 <= off,
        off + 54 <= b.len(),
        b.subrange(off, off + 54) == record_le(t),
    ensures
        record_from(b, off) == t,
{
    let s = b.subrange(off, off + 54);
    let r = record_le(t);
    assert(b.subrange(off, off + 16) =~= s.subrange(0, 16));
    assert(b.subrange(off + 16, off + 24) =~= s.subrange(16, 24));
    assert(b.subrange(off + 24, off + 34) =~= s.subrange(24, 34));
    assert(b.subrange(off + 34, off + 44) =~= s.subrange(34, 44));
    assert(b.subrange(off + 44, off + 54) =~= s.subrange(44, 54));
    assert(r.subrange(0, 16) =~= u128_le(t.error.num));
    assert(r.subrange(16, 24) =~= u64_le(t.error.den));
    assert(r.subrange(24, 34) =~= vertex_le(t.vertices.a));
    assert(r.subrange(34, 44) =~= vertex_le(t.vertices.b));
    assert(r.subrange(44, 54) =~= vertex_le(t.vertices.c));
    lemma_u128_round(b, off, t.error.num);
    lemma_u64_round(b, off + 16, t.error.den);
    lemma_vertex_round(b, off + 24, t.vertices.a);
    lemma_vertex_round(b, off + 34, t.vertices.b);
    lemma_vertex_round(b, off + 44, t.vertices.c);
}

proof fn lemma_records_len(ts: Seq<RtinTriangle>)
    ensures
        records_le(ts).len() == 54 * ts.len(),
    decreases ts.len(),
{
    if ts.len() > 0 {
        lemma_records_len(ts.drop_last());
    }
}

proof fn lemma_records_at(ts: Seq<RtinTriangle>, i: int)
    requires
        0 <= i < ts.len(),
    ensures
        records_le(ts).subrange(54 * i, 54 * i + 54) == record_le(ts[i]),
    decreases ts.len(),
{
    lemma_records_len(ts.drop_last());
    let front = records_le(ts.drop_last());
    if i == ts.len() - 1 {
        assert(records_le(ts).subrange(54 * i, 54 * i + 54) =~= record_le(ts[i]));
    } else {
        lemma_records_at(ts.drop_last(), i);
        assert(records_le(ts).subrange(54 * i, 54 * i + 54) =~= front.subrange(54 * i, 54 * i + 54));
    }
}

/// Reading back the cache file of a hierarchy gives the same hierarchy.
pub proof fn lemma_cache_round_trip(v: RtinView)
    requires
        v.triangles.len() <= u32::MAX,
    ensures
        parse_spec(encode_spec(v)) == Some(v),
{
    let b = encode_spec(v);
    let h = header_le(v);
    let n = v.triangles.len();
    lemma_records_len(v.triangles);
    assert(h.len() == 20);
    assert(b.take(4) =~= magic());
    assert(b.subrange(4, 8) =~= u32_le(CACHE_VERSION));
    assert(b.subrange(8, 12) =~= u32_le(v.grid_size));
    assert(b.subrange(12, 14) =~= u16_le(v.min_height));
    assert(b.subrange(14, 16) =~= u16_le(v.max_height));
    assert(b.subrange(16, 20) =~= u32_le(n as u32));
    lemma_u32_round(b, 4, CACHE_VERSION);
    lemma_u32_round(b, 8, v.grid_size);
    lemma_u16_round(b, 12, v.min_height);
    lemma_u16_round(b, 14, v.max_height);
    lemma_u32_round(b, 16, n as u32);
    let p = parse_spec(b).unwrap();
    assert forall|i: int| 0 <= i < n implies p.triangles[i] == v.triangles[i] by {
        lemma_records_at(v.triangles, i);
        assert(b.subrange(20 + 54 * i, 20 + 54 * i + 54) =~= records_le(v.triangles).subrange(
            54 * i,
            54 * i + 54,
        ));
        lemma_record_round(b, 20 + 54 * i, v.triangles[i]);
    }
    assert(p.triangles =~= v.triangles);
}

fn push_u16(out: &mut Vec<u8>, v: u16)
    ensures
        final(out)@ == old(out)@ + u16_le(v),
{
    out.push((v & 0xff) as u8);
    out.push(((v >> 8) & 0xff) as u8);
    proof {
        assert(final(out)@ =~= old(out)@ + u16_le(v));
    }
}

fn push_u32(out: &mut Vec<u8>, v: u32)
    ensures
        final(out)@ == old(out)@ + u32_le(v),
{
    out.push((v & 0xff) as u8);
    out.push(((v >> 8) & 0xff) as u8);
    out.push(((v >> 16) & 0xff) as u8);
    out.push(((v >> 24) & 0xff) as u8);
    proof {
        assert(final(out)@ =~= old(out)@ + u32_le(v));
    }
}

fn push_u64(out: &mut Vec<u8>, v: u64)
    ensures
        final(out)@ == old(out)@ + u64_le(v),
{
    push_u32(out, (v & 0xffff_ffff) as u32);
    push_u32(out, (v >> 32) as u32);
    proof {
        assert(final(out)@ =~= old(out)@ + u64_le(v));
    }
}

fn push_u128(out: &mut Vec<u8>, v: u128)
    ensures
        final(out)@ == old(out)@ + u128_le(v),
{
    push_u64(out, (v & 0xffff_ffff_ffff_ffff) as u64);
    push_u64(out, (v >> 64) as u64);
    proof {
        assert(final(out)@ =~= old(out)@ + u128_le(v));
    }
}

fn push_vertex(out: &mut Vec<u8>, v: Vertex)
    ensures
        final(out)@ == old(out)@ + vertex_le(v),
{
    push_u32(out, v.x);
    push_u32(out, v.y);
    push_u16(out, v.height);
    proof {
        assert(final(out)@ =~= old(out)@ + vertex_le(v));
    }
}

/// The cache file of a hierarchy: a little-endian header (magic tag,
/// version, grid size, height extrema, record count) and one record per node.
pub fn encode_rtin(rtin_data: &RtinData) -> (r: Vec<u8>)
    requires
        rtin_data.triangles@.len() <= u32::MAX,
    ensures
        r@ == encode_spec(rtin_data@),
{
    let mut out: Vec<u8> = Vec::new();
    out.push(0x52);
    out.push(0x54);
    out.push(0x49);
    out.push(0x4e);
    push_u32(&mut out, CACHE_VERSION);
    push_u32(&mut out, rtin_data.grid_size);
    push_u16(&mut out, rtin_data.min_height);
    push_u16(&mut out, rtin_data.max_height);
    push_u32(&mut out, rtin_data.triangles.len() as u32);
    let ghost ts = rtin_data.triangles@;
    proof {
        assert(out@ =~= header_le(rtin_data@) + records_le(ts.take(0)));
    }
    let mut i: usize = 0;
    while i < rtin_data.triangles.len()
        invariant
            ts == rtin_data.triangles@,
            i <= ts.len(),
            out@ == header_le(rtin_data@) + records_le(ts.take(i as int)),
        decreases ts.len() - i,
    {
        let t = &rtin_data.triangles[i];
        let ghost before = out@;
        push_u128(&mut out, t.error.num);
        push_u64(&mut out, t.error.den);
        push_vertex(&mut out, t.vertices.a);
        push_vertex(&mut out, t.vertices.b);
        push_vertex(&mut out, t.vertices.c);
        proof {
            assert(ts.take(i + 1).drop_last() =~= ts.take(i as int));
            assert(out@ =~= before + record_le(*t));
        }
        i = i + 1;
    }
    proof {
        assert(ts.take(i as int) =~= ts);
    }
    out
}

fn read_u16(b: &[u8], off: usize) -> (r: u16)
    requires
        off + 2 <= b@.len(),
    ensures
        r == u16_at(b@, off as int),
{
    (b[off] as u16) | ((b[off + 1] as u16) << 8)
}

fn read_u32(b: &[u8], off: usize) -> (r: u32)
    requires
        off + 4 <= b@.len(),
    ensures
        r == u32_at(b@, off as int),
{
    (b[off] as u32) | ((b[off + 1] as u32) << 8) | ((b[off + 2] as u32) << 16) | ((b[off + 3] as u32)
        << 24)
}

fn read_u64(b: &[u8], off: usize) -> (r: u64)
    requires
        off + 8 <= b@.len() <= usize::MAX,
    ensures
        r == u64_at(b@, off as int),
{
    (read_u32(b, off) as u64) | ((read_u32(b, off + 4) as u64) << 32)
}

fn read_u128(b: &[u8], off: usize) -> (r: u128)
    requires
        off + 16 <= b@.len() <= usize::MAX,
    ensures
        r == u128_at(b@, off as int),
{
    (read_u64(b, off) as u128) | ((read_u64(b, off + 8) as u128) << 64)
}

fn read_vertex(b: &[u8], off: usize) -> (r: Vertex)
    requires
        off + 10 <= b@.len() <= usize::MAX,
    ensures
        r == vertex_from(b@, off as int),
{
    Vertex { x: read_u32(b, off), y: read_u32(b, off + 4), height: read_u16(b, off + 8) }
}

/// Reads a cache file back; `None` unless the bytes are a cache file of
/// this version with exactly the records its header announces.
pub fn decode_rtin(bytes: &[u8]) -> (r: Option<RtinData>)
    ensures
        r is Some <==> parse_spec(bytes@) is Some,
        r matches Some(d) ==> parse_spec(bytes@) == Some(d@),
{
    let len = bytes.len();
    if len < HEADER_LEN {
        return None;
    }
    if bytes[0] != 0x52 || bytes[1] != 0x54 || bytes[2] != 0x49 || bytes[3] != 0x4e {
        proof {
            assert(bytes@.take(4) != magic()) by {
                if bytes@.take(4) == magic() {
                    assert(bytes@.take(4)[0] == bytes@[0]);
                    assert(bytes@.take(4)[1] == bytes@[1]);
                    assert(bytes@.take(4)[2] == bytes@[2]);
                    assert(bytes@.take(4)[3] == bytes@[3]);
                }
            }
        }
        return None;
    }
    proof {
        assert(bytes@.take(4) =~= magic());
    }
    if read_u32(bytes, 4) != CACHE_VERSION {
        return None;
    }
    let n = read_u32(bytes, 16);
    if len as u64 != 20 + 54 * n as u64 {
        return None;
    }
    let grid_size = read_u32(bytes, 8);
    let min_height = read_u16(bytes, 12);
    let max_height = read_u16(bytes, 14);
    let mut triangles: Vec<RtinTriangle> = Vec::new();
    let mut i: u32 = 0;
    while i < n
        invariant
            len == bytes@.len(),
            len == 20 + 54 * n,
            i <= n,
            triangles@ =~= Seq::new(i as nat, |j: int| record_from(bytes@, 20 + 54 * j)),
        decreases n - i,
    {
        let off: usize = 20 + 54 * i as usize;
        let t = RtinTriangle {
            error: Ratio { num: read_u128(bytes, off), den: read_u64(bytes, off + 16) },
            vertices: Triangle::new(
                read_vertex(bytes, off + 24),
                read_vertex(bytes, off + 34),
                read_vertex(bytes, off + 44),
            ),
        };
        triangles.push(t);
        i = i + 1;
    }
    let r = RtinData { grid_size, min_height, max_height, triangles };
    proof {
        assert(r@.triangles =~= parse_spec(bytes@).unwrap().triangles);
    }
    Some(r)
}

/// Whether a hierarchy, read back from a cache file, can be meshed.
pub fn is_well_formed(rtin_data: &RtinData) -> (r: bool)
    ensures
        r == rtin_data.wf(),
{
    let s = rtin_data.grid_size;
    if s > MAX_GRID_SIZE || s < 3 || !is_power_of_two(s - 1) {
        return false;
    }
    let n = num_triangles(s);
    if rtin_data.triangles.len() != n as usize {
        return false;
    }
    proof {
        assert(2 * (s - 1) * (s - 1) <= 0x8000_0000) by (nonlinear_arith)
            requires
                1 <= s <= MAX_GRID_SIZE,
        ;
    }
    let mut i: usize = 0;
    while i < rtin_data.triangles.len()
        invariant
            s == rtin_data.grid_size,
            i <= rtin_data.triangles@.len(),
            forall|j: int| 0 <= j < i ==> #[trigger] node_fits(rtin_data.triangles@[j], s),
        decreases rtin_data.triangles@.len() - i,
    {
        let t = &rtin_data.triangles[i];
        let v = &t.vertices;
        if t.error.den == 0 || v.a.x >= s || v.a.y >= s || v.b.x >= s || v.b.y >= s || v.c.x >= s
            || v.c.y >= s {
            proof {
                assert(!node_fits(rtin_data.triangles@[i as int], s));
            }
            return false;
        }
        i = i + 1;
    }
    true
}

/// Whether the cache bytes hold a well-formed hierarchy for a square grid of
/// the side of `hm`.
pub open spec fn is_cache_hit(hm: &Heightmap, cached: Option<&[u8]>) -> bool {
    &&& hm.width == hm.height
    &&& cached matches Some(b)
    &&& parse_spec(b@) matches Some(v)
    &&& v.grid_size == hm.width
    &&& view_wf(v)
}

/// The hierarchy of `heightmap`: read back from the cache file bytes
/// `cached` when they hold a well-formed one for a grid of this side, else
/// computed. The flag is `true` when it was computed, so that the cache is
/// stale.
pub fn preprocess_heightmap_cached(heightmap: &Heightmap, cached: Option<&[u8]>) -> (r: (
    Result<RtinData, RtinError>,
    bool,
))
    requires
        heightmap.wf(),
        within_limit(heightmap),
    ensures
        is_cache_hit(heightmap, cached) ==> !r.1 && (r.0 matches Ok(d) && Some(
            d@,
        ) == parse_spec(cached.unwrap()@)),
        !is_cache_hit(heightmap, cached) ==> r.1 && is_preprocess_result(
            heightmap,
            r.0,
        ),
{
    if let Some(bytes) = cached {
        if let Some(rtin) = decode_rtin(bytes) {
            if heightmap.width == heightmap.height && rtin.grid_size == heightmap.width
                && is_well_formed(&rtin) {
                return (Ok(rtin), false);
            }
        }
    }
    (preprocess_heightmap(heightmap), true)
}

} // verus!
