use crate::base::BLOCK_SIZE;
use crate::codec::lemma_le_round_trips;
use crate::encoding::{
    enc_all, enc_meta, enc_str, get_schema, get_segments, get_str, get_u32, get_u64, holds_at,
    lemma_enc_all_push, lemma_holds_split, lemma_parse_all, lemma_parse_meta, lemma_parse_str,
    lemma_parse_u32, lemma_parse_u64, parse_all, parse_meta, parse_str, parse_u32, parse_u64,
    put_schema, put_segments, put_str, put_u32, put_u64,
};
use crate::types::{DataType, Schema};
use vstd::bytes::*;
use vstd::prelude::*;
use vstd::slice::slice_subrange;
use vstd::wrapping::u64_specs;

verus! {

/// Version written into every catalog header.
pub const CATALOG_VERSION: u32 = 1;

/// The checksum of `s`: `acc * 31 + byte` over its bytes, wrapping at 2^64.
pub open spec fn checksum(s: Seq<u8>) -> u64
    decreases s.len(),
{
    if s.len() == 0 {
        0
    } else {
        u64_specs::wrapping_add(u64_specs::wrapping_mul(checksum(s.drop_last()), 31), s.last() as u64)
    }
}

pub fn compute_checksum(data: &[u8]) -> (r: u64)
    ensures
        r == checksum(data@),
{
    let mut acc: u64 = 0;
    let mut i: usize = 0;
    while i < data.len()
        invariant
            i <= data@.len(),
            acc == checksum(data@.subrange(0, i as int)),
        decreases data@.len() - i,
    {
        proof {
            assert(data@.subrange(0, i + 1).drop_last() =~= data@.subrange(0, i as int));
        }
        acc = acc.wrapping_mul(31).wrapping_add(data[i] as u64);
        i = i + 1;
    }
    assert(data@.subrange(0, data@.len() as int) =~= data@);
    acc
}

/// Mathematical model of a table's metadata: schema and owned segments.
pub type MetaV = (Seq<(Seq<char>, DataType)>, Seq<u32>);

/// Table metadata: its schema and the segments it owns, oldest first.
#[derive(Debug, Clone)]
pub struct TableMetadata {
    pub schema: Schema,
    pub segments: Vec<u32>,
}

impl View for TableMetadata {
    type V = MetaV;

    open spec fn view(&self) -> MetaV {
        (self.schema@, self.segments@)
    }
}

pub open spec fn tables_view(ts: Seq<(String, TableMetadata)>) -> Seq<(Seq<char>, MetaV)> {
    ts.map_values(|t: (String, TableMetadata)| (t.0@, t.1@))
}

/// One catalog entry: the table name, then the byte offset of its metadata.
pub open spec fn enc_entry(e: (Seq<char>, u32)) -> Seq<u8> {
    enc_str(e.0) + spec_u32_to_le_bytes(e.1)
}

pub open spec fn parse_entry(b: Seq<u8>, pos: int) -> Option<((Seq<char>, u32), int)> {
    match parse_str(b, pos) {
        Some((name, p)) => match parse_u32(b, p) {
            Some((off, q)) => Some(((name, off), q)),
            None => None,
        },
        None => None,
    }
}

/// The catalog header: version, table count, entries, checksum.
pub open spec fn enc_header(version: u32, entries: Seq<(Seq<char>, u32)>, sum: u64) -> Seq<u8> {
    spec_u32_to_le_bytes(version) + spec_u32_to_le_bytes(entries.len() as u32) + enc_all(
        entries,
        |e: (Seq<char>, u32)| enc_entry(e),
    ) + spec_u64_to_le_bytes(sum)
}

pub open spec fn metas_of(ts: Seq<(Seq<char>, MetaV)>) -> Seq<MetaV> {
    ts.map_values(|t: (Seq<char>, MetaV)| t.1)
}

/// The metadata of every table, one after the other.
pub open spec fn catalog_blob(ts: Seq<(Seq<char>, MetaV)>) -> Seq<u8> {
    enc_all(metas_of(ts), |m: MetaV| enc_meta(m))
}

/// Header entries: each name with the offset of its metadata in the blob.
pub open spec fn catalog_entries(ts: Seq<(Seq<char>, MetaV)>) -> Seq<(Seq<char>, u32)> {
    Seq::new(ts.len(), |i: int| (ts[i].0, catalog_blob(ts.subrange(0, i)).len() as u32))
}

pub open spec fn catalog_header_len(ts: Seq<(Seq<char>, MetaV)>) -> nat {
    enc_header(CATALOG_VERSION, catalog_entries(ts), 0).len()
}

/// Whether the header and the metadata of `ts` fit in one block.
pub open spec fn catalog_fits(ts: Seq<(Seq<char>, MetaV)>) -> bool {
    catalog_header_len(ts) + catalog_blob(ts).len() <= BLOCK_SIZE
}

/// What follows the header in the block: the blob, then zeros.
pub open spec fn catalog_rest(ts: Seq<(Seq<char>, MetaV)>) -> Seq<u8> {
    catalog_blob(ts) + Seq::new(
        (BLOCK_SIZE - catalog_header_len(ts) - catalog_blob(ts).len()) as nat,
        |i: int| 0u8,
    )
}

/// The block that stores the catalog `ts`: the header, whose checksum
/// covers the metadata blob, then the blob, then zeros.
pub open spec fn catalog_image(ts: Seq<(Seq<char>, MetaV)>) -> Seq<u8> {
    enc_header(CATALOG_VERSION, catalog_entries(ts), checksum(catalog_blob(ts))) + catalog_rest(ts)
}

/// Why a stored catalog could not be read.
#[derive(Debug, Clone, Copy, PartialEq, Eq, Structural)]
pub enum CatalogError {
    /// The header or a table's metadata does not decode.
    Decode,
    /// The checksum does not match the metadata blob after the header.
    ChecksumMismatch,
}

pub open spec fn parse_header(b: Seq<u8>) -> Option<((u32, Seq<(Seq<char>, u32)>, u64), int)> {
    match parse_u32(b, 0) {
        Some((version, p1)) => match parse_u32(b, p1) {
            Some((n, p2)) => match parse_all(b, p2, n as nat, |b: Seq<u8>, p: int| parse_entry(b, p)) {
                Some((entries, p3)) => match parse_u64(b, p3) {
                    Some((sum, p4)) => Some(((version, entries, sum), p4)),
                    None => None,
                },
                None => None,
            },
            None => None,
        },
        None => None,
    }
}

/// What reading the catalog block `b` yields: the header must decode and
/// carry the current version, the metadata of each named table must decode
/// in turn, and the header's checksum must match the blob those metadata
/// occupy.
pub open spec fn read_catalog(b: Seq<u8>) -> Result<Seq<(Seq<char>, MetaV)>, CatalogError> {
    match parse_header(b) {
        Some(((version, entries, sum), h)) => if version != CATALOG_VERSION {
            Err(CatalogError::Decode)
        } else {
            match parse_all(b, h, entries.len(), |b: Seq<u8>, p: int| parse_meta(b, p)) {
                Some((metas, end)) => if checksum(b.subrange(h, end)) != sum {
                    Err(CatalogError::ChecksumMismatch)
                } else {
                    Ok(Seq::new(entries.len(), |i: int| (entries[i].0, metas[i])))
                },
                None => Err(CatalogError::Decode),
            }
        },
        None => Err(CatalogError::Decode),
    }
}

/// Catalog header as it is stored.
#[derive(Debug, Clone)]
pub struct CatalogHeader {
    pub catalog_version: u32,
    pub num_tables: u32,
    pub table_offsets: Vec<(String, u32)>,
    pub checksum: u64,
}

impl CatalogHeader {
    pub fn new() -> (r: CatalogHeader)
        ensures
            r.catalog_version == CATALOG_VERSION,
            r.num_tables == 0,
            r.table_offsets@.len() == 0,
            r.checksum == 0,
    {
        CatalogHeader {
            catalog_version: CATALOG_VERSION,
            num_tables: 0,
            table_offsets: Vec::new(),
            checksum: 0,
        }
    }
}

pub fn put_meta(out: &mut Vec<u8>, m: &TableMetadata)
    ensures
        final(out)@ == old(out)@ + enc_meta(m@),
{
    let ghost o = out@;
    put_schema(out, &m.schema);
    put_segments(out, &m.segments);
    assert(out@ =~= o + enc_meta(m@));
}

pub fn get_meta(b: &[u8], pos: usize) -> (r: Option<(TableMetadata, usize)>)
    ensures
        match r {
            Some((m, p)) => p <= b@.len() && pos <= p && parse_meta(b@, pos as int) == Some((m@, p as int)),
            None => parse_meta(b@, pos as int) is None,
        },
{
    let (schema, p) = match get_schema(b, pos) {
        Some(x) => x,
        None => return None,
    };
    let (segments, q) = match get_segments(b, p) {
        Some(x) => x,
        None => return None,
    };
    Some((TableMetadata { schema, segments }, q))
}

pub open spec fn entries_view(ts: Seq<(String, TableMetadata)>, offsets: Seq<u32>) -> Seq<(Seq<char>, u32)> {
    Seq::new(offsets.len(), |k: int| (ts[k].0@, offsets[k]))
}

fn put_header(out: &mut Vec<u8>, tables: &Vec<(String, TableMetadata)>, offsets: &Vec<u32>, sum: u64)
    requires
        offsets@.len() == tables@.len(),
    ensures
        final(out)@ == old(out)@ + enc_header(CATALOG_VERSION, entries_view(tables@, offsets@), sum),
{
    let ghost o = out@;
    let ghost es = entries_view(tables@, offsets@);
    put_u32(out, CATALOG_VERSION);
    put_u32(out, #[verifier::truncate] (offsets.len() as u32));
    let ghost o1 = out@;
    let mut i: usize = 0;
    while i < offsets.len()
        invariant
            offsets@.len() == tables@.len(),
            es == entries_view(tables@, offsets@),
            i <= offsets@.len(),
            out@ == o1 + enc_all(es.subrange(0, i as int), |e: (Seq<char>, u32)| enc_entry(e)),
        decreases offsets@.len() - i,
    {
        put_str(out, tables[i].0.as_str());
        put_u32(out, offsets[i]);
        proof {
            assert(es.subrange(0, i + 1) =~= es.subrange(0, i as int).push(es[i as int]));
            lemma_enc_all_push(es.subrange(0, i as int), es[i as int], |e: (Seq<char>, u32)| enc_entry(e));
            assert(out@ =~= o1 + enc_all(es.subrange(0, i as int), |e: (Seq<char>, u32)| enc_entry(e)) + enc_entry(es[i as int]));
        }
        i = i + 1;
    }
    put_u64(out, sum);
    proof {
        assert(es.subrange(0, es.len() as int) =~= es);
        assert(out@ =~= o + enc_header(CATALOG_VERSION, es, sum));
    }
}

proof fn lemma_header_len(es: Seq<(Seq<char>, u32)>, a: u64, b: u64)
    ensures
        enc_header(CATALOG_VERSION, es, a).len() == enc_header(CATALOG_VERSION, es, b).len(),
{
    lemma_le_round_trips();
}

/// The block image of the catalog `tables`, or `None` when the header and
/// the tables' metadata do not fit in one block.
pub fn encode_catalog(tables: &Vec<(String, TableMetadata)>) -> (r: Option<Vec<u8>>)
    ensures
        r is Some <==> catalog_fits(tables_view(tables@)),
        r matches Some(img) ==> img@ == catalog_image(tables_view(tables@)) && img@.len() == BLOCK_SIZE,
{
    let ghost ts = tables_view(tables@);
    let mut blob: Vec<u8> = Vec::new();
    let mut offsets: Vec<u32> = Vec::new();
    let mut i: usize = 0;
    while i < tables.len()
        invariant
            ts == tables_view(tables@),
            i <= tables@.len(),
            blob@ == catalog_blob(ts.subrange(0, i as int)),
            offsets@.len() == i,
            forall|k: int| 0 <= k < i ==> #[trigger] offsets@[k] == catalog_entries(ts)[k].1,
        decreases tables@.len() - i,
    {
        offsets.push(#[verifier::truncate] (blob.len() as u32));
        put_meta(&mut blob, &tables[i].1);
        proof {
            let before = ts.subrange(0, i as int);
            assert(ts.subrange(0, i as int).subrange(0, i as int) =~= before);
            assert(metas_of(ts.subrange(0, i + 1)) =~= metas_of(before).push(ts[i as int].1));
            lemma_enc_all_push(metas_of(before), ts[i as int].1, |m: MetaV| enc_meta(m));
            assert(blob@ =~= catalog_blob(ts.subrange(0, i + 1)));
        }
        i = i + 1;
    }
    proof {
        assert(ts.subrange(0, ts.len() as int) =~= ts);
        assert(entries_view(tables@, offsets@) =~= catalog_entries(ts));
    }
    let mut head: Vec<u8> = Vec::new();
    put_header(&mut head, tables, &offsets, 0);
    if head.len() > BLOCK_SIZE || BLOCK_SIZE - head.len() < blob.len() {
        return None;
    }
    let pad_len = BLOCK_SIZE - head.len() - blob.len();
    let sum = compute_checksum(blob.as_slice());
    let mut rest = blob;
    let mut pad: Vec<u8> = vec![0u8; pad_len];
    rest.append(&mut pad);
    proof {
        assert(rest@ =~= catalog_rest(ts));
    }
    let mut img: Vec<u8> = Vec::new();
    put_header(&mut img, tables, &offsets, sum);
    img.append(&mut rest);
    proof {
        lemma_header_len(catalog_entries(ts), 0, sum);
        assert(img@ =~= catalog_image(ts));
    }
    Some(img)
}

/// Reads a stored catalog block.
pub fn decode_catalog(b: &[u8]) -> (r: Result<Vec<(String, TableMetadata)>, CatalogError>)
    ensures
        match r {
            Ok(v) => read_catalog(b@) == Ok::<Seq<(Seq<char>, MetaV)>, CatalogError>(tables_view(v@)),
            Err(e) => read_catalog(b@) == Err::<Seq<(Seq<char>, MetaV)>, CatalogError>(e),
        },
{
    let (version, p1) = match get_u32(b, 0) {
        Some(x) => x,
        None => return Err(CatalogError::Decode),
    };
    let (n, p2) = match get_u32(b, p1) {
        Some(x) => x,
        None => return Err(CatalogError::Decode),
    };
    let mut names: Vec<String> = Vec::new();
    let mut offsets: Vec<u32> = Vec::new();
    let mut p = p2;
    let mut i: u32 = 0;
    while i < n
        invariant
            i <= n,
            parse_u32(b@, 0) == Some((version, p1 as int)),
            parse_u32(b@, p1 as int) == Some((n, p2 as int)),
            names@.len() == i,
            offsets@.len() == i,
            parse_all(b@, p2 as int, n as nat, |b: Seq<u8>, p: int| parse_entry(b, p)) == (match parse_all(
                b@,
                p as int,
                (n - i) as nat,
                |b: Seq<u8>, p: int| parse_entry(b, p),
            ) {
                Some((rest, q)) => Some((Seq::new(i as nat, |k: int| (names@[k]@, offsets@[k])) + rest, q)),
                None => None,
            }),
        decreases n - i,
    {
        let (name, q1) = match get_str(b, p) {
            Some(x) => x,
            None => {
                assert(parse_all(b@, p as int, (n - i) as nat, |b: Seq<u8>, p: int| parse_entry(b, p)) is None);
                return Err(CatalogError::Decode);
            },
        };
        let (off, q2) = match get_u32(b, q1) {
            Some(x) => x,
            None => {
                assert(parse_all(b@, p as int, (n - i) as nat, |b: Seq<u8>, p: int| parse_entry(b, p)) is None);
                return Err(CatalogError::Decode);
            },
        };
        proof {
            let before = Seq::new(i as nat, |k: int| (names@[k]@, offsets@[k]));
            let after = Seq::new((i + 1) as nat, |k: int| (names@.push(name)[k]@, offsets@.push(off)[k]));
            assert(after =~= before.push((name@, off)));
            match parse_all(b@, q2 as int, (n - i - 1) as nat, |b: Seq<u8>, p: int| parse_entry(b, p)) {
                Some((rest, q)) => {
                    assert(before.push((name@, off)) + rest =~= before + (seq![(name@, off)] + rest));
                },
                None => {},
            }
        }
        names.push(name);
        offsets.push(off);
        p = q2;
        i = i + 1;
    }
    let ghost entries = Seq::new(n as nat, |k: int| (names@[k]@, offsets@[k]));
    assert(entries + Seq::<(Seq<char>, u32)>::empty() =~= entries);
    let (sum, h) = match get_u64(b, p) {
        Some(x) => x,
        None => return Err(CatalogError::Decode),
    };
    assert(parse_header(b@) == Some(((version, entries, sum), h as int)));
    if version != CATALOG_VERSION {
        return Err(CatalogError::Decode);
    }
    let mut tables: Vec<(String, TableMetadata)> = Vec::new();
    let mut p = h;
    let mut i: usize = 0;
    let count = names.len();
    while i < count
        invariant
            count == names@.len(),
            count == n,
            entries == Seq::new(n as nat, |k: int| (names@[k]@, offsets@[k])),
            parse_header(b@) == Some(((version, entries, sum), h as int)),
            version == CATALOG_VERSION,
            h <= p <= b@.len(),
            i <= count,
            tables@.len() == i,
            forall|k: int| 0 <= k < i ==> (#[trigger] tables@[k]).0@ == names@[k]@,
            parse_all(b@, h as int, n as nat, |b: Seq<u8>, p: int| parse_meta(b, p)) == (match parse_all(
                b@,
                p as int,
                (n - i) as nat,
                |b: Seq<u8>, p: int| parse_meta(b, p),
            ) {
                Some((rest, q)) => Some((Seq::new(i as nat, |k: int| tables@[k].1@) + rest, q)),
                None => None,
            }),
        decreases count - i,
    {
        let (m, q) = match get_meta(b, p) {
            Some(x) => x,
            None => {
                assert(parse_all(b@, p as int, (n - i) as nat, |b: Seq<u8>, p: int| parse_meta(b, p)) is None);
                return Err(CatalogError::Decode);
            },
        };
        let name = names[i].clone();
        proof {
            let before = Seq::new(i as nat, |k: int| tables@[k].1@);
            let after = Seq::new((i + 1) as nat, |k: int| tables@.push((name, m))[k].1@);
            assert(after =~= before.push(m@));
            match parse_all(b@, q as int, (n - i - 1) as nat, |b: Seq<u8>, p: int| parse_meta(b, p)) {
                Some((rest, q2)) => {
                    assert(before.push(m@) + rest =~= before + (seq![m@] + rest));
                },
                None => {},
            }
        }
        tables.push((name, m));
        p = q;
        i = i + 1;
    }
    proof {
        let metas = Seq::new(n as nat, |k: int| tables@[k].1@);
        assert(metas + Seq::<MetaV>::empty() =~= metas);
        assert(tables_view(tables@) =~= Seq::new(entries.len(), |k: int| (entries[k].0, metas[k])));
    }
    if compute_checksum(slice_subrange(b, h, p)) != sum {
        return Err(CatalogError::ChecksumMismatch);
    }
    Ok(tables)
}

/// Saving then loading the catalog gives back exactly the tables saved, in
/// order, for every set of tables whose catalog fits in one block.
#[verifier::rlimit(60)]
pub proof fn lemma_catalog_round_trip(ts: Seq<(Seq<char>, MetaV)>)
    requires
        catalog_fits(ts),
    ensures
        read_catalog(catalog_image(ts)) == Ok::<Seq<(Seq<char>, MetaV)>, CatalogError>(ts),
{
    lemma_le_round_trips();
    let b = catalog_image(ts);
    let es = catalog_entries(ts);
    let rest = catalog_rest(ts);
    let blob = catalog_blob(ts);
    let sum = checksum(blob);
    let ee = |e: (Seq<char>, u32)| enc_entry(e);
    let fe = |b: Seq<u8>, p: int| parse_entry(b, p);
    let em = |m: MetaV| enc_meta(m);
    let fm = |b: Seq<u8>, p: int| parse_meta(b, p);
    let v = spec_u32_to_le_bytes(CATALOG_VERSION);
    let c = spec_u32_to_le_bytes(es.len() as u32);
    let body = enc_all(es, ee);
    let s8 = spec_u64_to_le_bytes(sum);
    lemma_header_len(es, 0, sum);
    assert(b.len() == BLOCK_SIZE);
    assert(b.subrange(0, b.len() as int) =~= b);
    assert(holds_at(b, 0, b));
    assert(b =~= v + c + body + s8 + rest);
    lemma_holds_split(b, 0, v + c + body + s8, rest);
    lemma_holds_split(b, 0, v + c + body, s8);
    lemma_holds_split(b, 0, v + c, body);
    lemma_holds_split(b, 0, v, c);
    lemma_parse_u32(b, 0, CATALOG_VERSION);
    crate::encoding::lemma_enc_all_len(es, ee);
    lemma_parse_u32(b, 4, es.len() as u32);
    assert forall|i: int, p: int|
        #![trigger holds_at(b, p, ee(es[i]))]
        0 <= i < es.len() && holds_at(b, p, ee(es[i])) implies fe(b, p) == Some((es[i], p + ee(es[i]).len())) by {
        lemma_holds_split(b, p, enc_str(es[i].0), spec_u32_to_le_bytes(es[i].1));
        lemma_parse_str(b, p, es[i].0);
        lemma_parse_u32(b, p + enc_str(es[i].0).len(), es[i].1);
    }
    lemma_parse_all(b, 8, es, ee, fe);
    let h: int = (8 + body.len() + 8) as int;
    lemma_parse_u64(b, 8 + body.len() as int, sum);
    assert(parse_header(b) == Some(((CATALOG_VERSION, es, sum), h)));
    assert(b.subrange(h, b.len() as int) =~= rest);
    assert(holds_at(b, h, rest));
    assert(blob + rest.subrange(blob.len() as int, rest.len() as int) =~= rest);
    lemma_holds_split(b, h, blob, rest.subrange(blob.len() as int, rest.len() as int));
    let ms = metas_of(ts);
    assert forall|i: int, p: int|
        #![trigger holds_at(b, p, em(ms[i]))]
        0 <= i < ms.len() && holds_at(b, p, em(ms[i])) implies fm(b, p) == Some((ms[i], p + em(ms[i]).len())) by {
        lemma_parse_meta(b, p, ms[i]);
    }
    lemma_parse_all(b, h, ms, em, fm);
    assert(b.subrange(h, h + blob.len()) =~= blob);
    assert(Seq::new(es.len(), |i: int| (es[i].0, ms[i])) =~= ts);
}

} // verus!
