use crate::codec::{lemma_le_round_trips, read_u32, read_u64, u32_at, u64_at};
use crate::types::{columns_view, utf8, values_view, Column, DataType, Row, Schema, Value, ValueV};
use vstd::bytes::*;
use vstd::prelude::*;
use vstd::slice::{slice_subrange, slice_to_vec};
use vstd::utf8::{decode_utf8, encode_utf8_decode_utf8, valid_utf8};

verus! {

pub open spec fn parse_u8(b: Seq<u8>, pos: int) -> Option<(u8, int)> {
    if 0 <= pos < b.len() {
        Some((b[pos], pos + 1))
    } else {
        None
    }
}

pub open spec fn parse_u32(b: Seq<u8>, pos: int) -> Option<(u32, int)> {
    if 0 <= pos && pos + 4 <= b.len() {
        Some((u32_at(b, pos), pos + 4))
    } else {
        None
    }
}

pub open spec fn parse_u64(b: Seq<u8>, pos: int) -> Option<(u64, int)> {
    if 0 <= pos && pos + 8 <= b.len() {
        Some((u64_at(b, pos), pos + 8))
    } else {
        None
    }
}

/// A string: its UTF-8 length as a `u32`, then its UTF-8 bytes.
pub open spec fn enc_str(s: Seq<char>) -> Seq<u8> {
    spec_u32_to_le_bytes(utf8(s).len() as u32) + utf8(s)
}

pub open spec fn parse_str(b: Seq<u8>, pos: int) -> Option<(Seq<char>, int)> {
    match parse_u32(b, pos) {
        Some((n, p)) => if p + n <= b.len() && valid_utf8(b.subrange(p, p + n)) {
            Some((decode_utf8(b.subrange(p, p + n)), p + n))
        } else {
            None
        },
        None => None,
    }
}

/// `b` holds `x` from `pos` on.
pub open spec fn holds_at(b: Seq<u8>, pos: int, x: Seq<u8>) -> bool {
    0 <= pos && pos + x.len() <= b.len() && b.subrange(pos, pos + x.len()) == x
}

pub proof fn lemma_parse_u32(b: Seq<u8>, pos: int, x: u32)
    requires
        holds_at(b, pos, spec_u32_to_le_bytes(x)),
    ensures
        parse_u32(b, pos) == Some((x, pos + 4)),
{
    lemma_le_round_trips();
}

pub proof fn lemma_parse_u64(b: Seq<u8>, pos: int, x: u64)
    requires
        holds_at(b, pos, spec_u64_to_le_bytes(x)),
    ensures
        parse_u64(b, pos) == Some((x, pos + 8)),
{
    lemma_le_round_trips();
}

pub proof fn lemma_parse_str(b: Seq<u8>, pos: int, s: Seq<char>)
    requires
        holds_at(b, pos, enc_str(s)),
        utf8(s).len() <= u32::MAX,
    ensures
        parse_str(b, pos) == Some((s, pos + enc_str(s).len())),
{
    lemma_le_round_trips();
    let e = enc_str(s);
    let n = utf8(s).len() as u32;
    assert(b.subrange(pos, pos + 4) =~= e.subrange(0, 4));
    assert(e.subrange(0, 4) =~= spec_u32_to_le_bytes(n));
    assert(n == utf8(s).len());
    assert(spec_u32_to_le_bytes(n).len() == 4);
    assert forall|k: int| 0 <= k < n implies b.subrange(pos + 4, pos + 4 + n)[k] == utf8(s)[k] by {
        assert(b[pos + 4 + k] == e[4 + k]);
    }
    assert(b.subrange(pos + 4, pos + 4 + n) =~= utf8(s));
    vstd::utf8::encode_utf8_valid_utf8(s);
    encode_utf8_decode_utf8(s);
}

/// Relies on `String::from_utf8`: it succeeds exactly on valid UTF-8, and
/// the string it returns is made of the given bytes.
#[verifier::external_body]
fn string_from_utf8(bytes: Vec<u8>) -> (r: Option<String>)
    ensures
        r is Some <==> valid_utf8(bytes@),
        r matches Some(s) ==> utf8(s@) == bytes@,
{
    String::from_utf8(bytes).ok()
}

pub fn put_u8(out: &mut Vec<u8>, x: u8)
    ensures
        final(out)@ == old(out)@ + seq![x],
{
    out.push(x);
}

pub fn put_u32(out: &mut Vec<u8>, x: u32)
    ensures
        final(out)@ == old(out)@ + spec_u32_to_le_bytes(x),
{
    let mut b = u32_to_le_bytes(x);
    out.append(&mut b);
}

pub fn put_u64(out: &mut Vec<u8>, x: u64)
    ensures
        final(out)@ == old(out)@ + spec_u64_to_le_bytes(x),
{
    let mut b = u64_to_le_bytes(x);
    out.append(&mut b);
}

pub fn put_str(out: &mut Vec<u8>, s: &str)
    ensures
        final(out)@ == old(out)@ + enc_str(s@),
{
    let bytes = s.as_bytes();
    put_u32(out, #[verifier::truncate] (bytes.len() as u32));
    out.extend_from_slice(bytes);
}

pub fn get_u8(b: &[u8], pos: usize) -> (r: Option<(u8, usize)>)
    ensures
        match r {
            Some((x, p)) => p <= b@.len() && pos <= p && parse_u8(b@, pos as int) == Some((x, p as int)),
            None => parse_u8(b@, pos as int) is None,
        },
{
    if pos < b.len() {
        Some((b[pos], pos + 1))
    } else {
        None
    }
}

pub fn get_u32(b: &[u8], pos: usize) -> (r: Option<(u32, usize)>)
    ensures
        match r {
            Some((x, p)) => p <= b@.len() && pos <= p && parse_u32(b@, pos as int) == Some((x, p as int)),
            None => parse_u32(b@, pos as int) is None,
        },
{
    if pos <= b.len() && b.len() - pos >= 4 {
        Some((read_u32(b, pos), pos + 4))
    } else {
        None
    }
}

pub fn get_u64(b: &[u8], pos: usize) -> (r: Option<(u64, usize)>)
    ensures
        match r {
            Some((x, p)) => p <= b@.len() && pos <= p && parse_u64(b@, pos as int) == Some((x, p as int)),
            None => parse_u64(b@, pos as int) is None,
        },
{
    if pos <= b.len() && b.len() - pos >= 8 {
        Some((read_u64(b, pos), pos + 8))
    } else {
        None
    }
}

pub fn get_str(b: &[u8], pos: usize) -> (r: Option<(String, usize)>)
    ensures
        match r {
            Some((s, p)) => p <= b@.len() && pos <= p && parse_str(b@, pos as int) == Some((s@, p as int)),
            None => parse_str(b@, pos as int) is None,
        },
{
    let (n, p) = match get_u32(b, pos) {
        Some(x) => x,
        None => return None,
    };
    if b.len() - p < n as usize {
        return None;
    }
    let end = p + n as usize;
    let bytes = slice_to_vec(slice_subrange(b, p, end));
    match string_from_utf8(bytes) {
        Some(s) => {
            proof {
                encode_utf8_decode_utf8(s@);
            }
            Some((s, end))
        },
        None => None,
    }
}

/// The encodings of `xs`, one after the other.
pub open spec fn enc_all<T>(xs: Seq<T>, e: spec_fn(T) -> Seq<u8>) -> Seq<u8>
    decreases xs.len(),
{
    if xs.len() == 0 {
        Seq::empty()
    } else {
        e(xs[0]) + enc_all(xs.drop_first(), e)
    }
}

/// `n` items parsed one after the other from `pos` on.
pub open spec fn parse_all<T>(
    b: Seq<u8>,
    pos: int,
    n: nat,
    f: spec_fn(Seq<u8>, int) -> Option<(T, int)>,
) -> Option<(Seq<T>, int)>
    decreases n,
{
    if n == 0 {
        Some((Seq::empty(), pos))
    } else {
        match f(b, pos) {
            Some((x, p)) => match parse_all(b, p, (n - 1) as nat, f) {
                Some((xs, q)) => Some((seq![x] + xs, q)),
                None => None,
            },
            None => None,
        }
    }
}

pub proof fn lemma_enc_all_push<T>(xs: Seq<T>, x: T, e: spec_fn(T) -> Seq<u8>)
    ensures
        enc_all(xs.push(x), e) == enc_all(xs, e) + e(x),
    decreases xs.len(),
{
    if xs.len() == 0 {
        assert(xs.push(x).drop_first() =~= Seq::<T>::empty());
        assert(enc_all(Seq::<T>::empty(), e) =~= Seq::<u8>::empty());
        assert(enc_all(xs.push(x), e) =~= e(x));
        assert(enc_all(xs, e) + e(x) =~= e(x));
    } else {
        assert(xs.push(x).drop_first() =~= xs.drop_first().push(x));
        lemma_enc_all_push(xs.drop_first(), x, e);
        assert(enc_all(xs.push(x), e) =~= enc_all(xs, e) + e(x));
    }
}

pub proof fn lemma_holds_split(b: Seq<u8>, pos: int, x: Seq<u8>, y: Seq<u8>)
    requires
        holds_at(b, pos, x + y),
    ensures
        holds_at(b, pos, x),
        holds_at(b, pos + x.len(), y),
{
    let xy = x + y;
    assert(b.subrange(pos, pos + xy.len()) == xy);
    assert forall|k: int| 0 <= k < x.len() implies b.subrange(pos, pos + x.len())[k] == x[k] by {
        assert(b[pos + k] == b.subrange(pos, pos + xy.len())[k]);
        assert(xy[k] == x[k]);
    }
    assert(b.subrange(pos, pos + x.len()) =~= x);
    assert forall|k: int| 0 <= k < y.len() implies b.subrange(pos + x.len(), pos + x.len() + y.len())[k] == y[k] by {
        assert(b[pos + x.len() + k] == b.subrange(pos, pos + xy.len())[x.len() + k]);
        assert(xy[x.len() + k] == y[k]);
    }
    assert(b.subrange(pos + x.len(), pos + x.len() + y.len()) =~= y);
}

pub proof fn lemma_parse_all<T>(
    b: Seq<u8>,
    pos: int,
    xs: Seq<T>,
    e: spec_fn(T) -> Seq<u8>,
    f: spec_fn(Seq<u8>, int) -> Option<(T, int)>,
)
    requires
        holds_at(b, pos, enc_all(xs, e)),
        forall|i: int, p: int|
            #![trigger holds_at(b, p, e(xs[i]))]
            0 <= i < xs.len() && holds_at(b, p, e(xs[i])) ==> f(b, p) == Some((xs[i], p + e(xs[i]).len())),
    ensures
        parse_all(b, pos, xs.len(), f) == Some((xs, pos + enc_all(xs, e).len())),
    decreases xs.len(),
{
    if xs.len() == 0 {
    } else {
        let rest = xs.drop_first();
        lemma_holds_split(b, pos, e(xs[0]), enc_all(rest, e));
        assert forall|i: int, p: int|
            #![trigger holds_at(b, p, e(rest[i]))]
            0 <= i < rest.len() && holds_at(b, p, e(rest[i])) implies f(b, p) == Some((rest[i], p + e(rest[i]).len())) by {
            assert(rest[i] == xs[i + 1]);
            assert(holds_at(b, p, e(xs[i + 1])));
        }
        assert(holds_at(b, pos, e(xs[0])));
        lemma_parse_all(b, pos + e(xs[0]).len(), rest, e, f);
        assert(seq![xs[0]] + rest =~= xs);
    }
}

pub open spec fn type_tag(t: DataType) -> u8 {
    match t {
        DataType::Int => 0,
        DataType::Float => 1,
        DataType::String => 2,
        DataType::Bool => 3,
        DataType::Null => 4,
    }
}

pub open spec fn tag_type(x: u8) -> Option<DataType> {
    if x == 0 {
        Some(DataType::Int)
    } else if x == 1 {
        Some(DataType::Float)
    } else if x == 2 {
        Some(DataType::String)
    } else if x == 3 {
        Some(DataType::Bool)
    } else if x == 4 {
        Some(DataType::Null)
    } else {
        None
    }
}

/// A column: its name, then its type tag.
pub open spec fn enc_column(c: (Seq<char>, DataType)) -> Seq<u8> {
    enc_str(c.0) + seq![type_tag(c.1)]
}

pub open spec fn parse_column(b: Seq<u8>, pos: int) -> Option<((Seq<char>, DataType), int)> {
    match parse_str(b, pos) {
        Some((name, p)) => match parse_u8(b, p) {
            Some((t, q)) => match tag_type(t) {
                Some(dt) => Some(((name, dt), q)),
                None => None,
            },
            None => None,
        },
        None => None,
    }
}

/// A schema: its number of columns, then each column.
pub open spec fn enc_schema(cs: Seq<(Seq<char>, DataType)>) -> Seq<u8> {
    spec_u32_to_le_bytes(cs.len() as u32) + enc_all(cs, |c: (Seq<char>, DataType)| enc_column(c))
}

pub open spec fn parse_columns(b: Seq<u8>, pos: int, n: nat) -> Option<(Seq<(Seq<char>, DataType)>, int)> {
    parse_all(b, pos, n, |b: Seq<u8>, p: int| parse_column(b, p))
}

pub open spec fn parse_schema(b: Seq<u8>, pos: int) -> Option<(Seq<(Seq<char>, DataType)>, int)> {
    match parse_u32(b, pos) {
        Some((n, p)) => parse_columns(b, p, n as nat),
        None => None,
    }
}

/// A list of segment ids: its length, then each id.
pub open spec fn enc_segments(xs: Seq<u32>) -> Seq<u8> {
    spec_u32_to_le_bytes(xs.len() as u32) + enc_all(xs, |x: u32| spec_u32_to_le_bytes(x))
}

pub open spec fn parse_u32s(b: Seq<u8>, pos: int, n: nat) -> Option<(Seq<u32>, int)> {
    parse_all(b, pos, n, |b: Seq<u8>, p: int| parse_u32(b, p))
}

pub open spec fn parse_segments(b: Seq<u8>, pos: int) -> Option<(Seq<u32>, int)> {
    match parse_u32(b, pos) {
        Some((n, p)) => parse_u32s(b, p, n as nat),
        None => None,
    }
}

/// Table metadata: its schema, then its segment ids.
pub open spec fn enc_meta(m: (Seq<(Seq<char>, DataType)>, Seq<u32>)) -> Seq<u8> {
    enc_schema(m.0) + enc_segments(m.1)
}

pub open spec fn parse_meta(b: Seq<u8>, pos: int) -> Option<((Seq<(Seq<char>, DataType)>, Seq<u32>), int)> {
    match parse_schema(b, pos) {
        Some((cs, p)) => match parse_segments(b, p) {
            Some((xs, q)) => Some(((cs, xs), q)),
            None => None,
        },
        None => None,
    }
}

/// A value: a tag, then its payload.
pub open spec fn enc_value(v: ValueV) -> Seq<u8> {
    match v {
        ValueV::Null => seq![0u8],
        ValueV::Int(n) => seq![1u8] + spec_u64_to_le_bytes(n as u64),
        ValueV::Float(f) => seq![2u8] + spec_u64_to_le_bytes(f),
        ValueV::Str(s) => seq![3u8] + enc_str(s),
        ValueV::Bool(x) => seq![4u8, if x { 1u8 } else { 0u8 }],
    }
}

pub open spec fn parse_value(b: Seq<u8>, pos: int) -> Option<(ValueV, int)> {
    match parse_u8(b, pos) {
        Some((t, p)) => if t == 0 {
            Some((ValueV::Null, p))
        } else if t == 1 {
            match parse_u64(b, p) {
                Some((x, q)) => Some((ValueV::Int(x as i64), q)),
                None => None,
            }
        } else if t == 2 {
            match parse_u64(b, p) {
                Some((x, q)) => Some((ValueV::Float(x), q)),
                None => None,
            }
        } else if t == 3 {
            match parse_str(b, p) {
                Some((s, q)) => Some((ValueV::Str(s), q)),
                None => None,
            }
        } else if t == 4 {
            match parse_u8(b, p) {
                Some((x, q)) => Some((ValueV::Bool(x != 0), q)),
                None => None,
            }
        } else {
            None
        },
        None => None,
    }
}

/// A row: its number of values, then each value.
pub open spec fn enc_row(vs: Seq<ValueV>) -> Seq<u8> {
    spec_u32_to_le_bytes(vs.len() as u32) + enc_all(vs, |v: ValueV| enc_value(v))
}

pub open spec fn parse_values(b: Seq<u8>, pos: int, n: nat) -> Option<(Seq<ValueV>, int)> {
    parse_all(b, pos, n, |b: Seq<u8>, p: int| parse_value(b, p))
}

pub open spec fn parse_row(b: Seq<u8>, pos: int) -> Option<(Seq<ValueV>, int)> {
    match parse_u32(b, pos) {
        Some((n, p)) => parse_values(b, p, n as nat),
        None => None,
    }
}

pub proof fn lemma_enc_all_len<T>(xs: Seq<T>, e: spec_fn(T) -> Seq<u8>)
    requires
        forall|i: int| 0 <= i < xs.len() ==> #[trigger] e(xs[i]).len() >= 1,
    ensures
        enc_all(xs, e).len() >= xs.len(),
    decreases xs.len(),
{
    if xs.len() > 0 {
        let rest = xs.drop_first();
        assert forall|i: int| 0 <= i < rest.len() implies #[trigger] e(rest[i]).len() >= 1 by {
            assert(rest[i] == xs[i + 1]);
        }
        lemma_enc_all_len(rest, e);
        assert(e(xs[0]).len() >= 1);
    }
}

proof fn lemma_enc_str_len(s: Seq<char>)
    ensures
        enc_str(s).len() == 4 + utf8(s).len(),
{
    lemma_le_round_trips();
}

pub proof fn lemma_parse_column(b: Seq<u8>, pos: int, c: (Seq<char>, DataType))
    requires
        holds_at(b, pos, enc_column(c)),
        b.len() <= u32::MAX,
    ensures
        parse_column(b, pos) == Some((c, pos + enc_column(c).len())),
{
    lemma_enc_str_len(c.0);
    lemma_holds_split(b, pos, enc_str(c.0), seq![type_tag(c.1)]);
    lemma_parse_str(b, pos, c.0);
    let p = pos + enc_str(c.0).len();
    assert(b[p] == b.subrange(p, p + 1)[0]);
}

pub proof fn lemma_parse_schema(b: Seq<u8>, pos: int, cs: Seq<(Seq<char>, DataType)>)
    requires
        holds_at(b, pos, enc_schema(cs)),
        b.len() <= u32::MAX,
    ensures
        parse_schema(b, pos) == Some((cs, pos + enc_schema(cs).len())),
{
    lemma_le_round_trips();
    let e = |c: (Seq<char>, DataType)| enc_column(c);
    let f = |b: Seq<u8>, p: int| parse_column(b, p);
    lemma_holds_split(b, pos, spec_u32_to_le_bytes(cs.len() as u32), enc_all(cs, e));
    assert forall|i: int| 0 <= i < cs.len() implies #[trigger] e(cs[i]).len() >= 1 by {
        lemma_enc_str_len(cs[i].0);
    }
    lemma_enc_all_len(cs, e);
    lemma_parse_u32(b, pos, cs.len() as u32);
    assert forall|i: int, p: int|
        #![trigger holds_at(b, p, e(cs[i]))]
        0 <= i < cs.len() && holds_at(b, p, e(cs[i])) implies f(b, p) == Some((cs[i], p + e(cs[i]).len())) by {
        lemma_parse_column(b, p, cs[i]);
    }
    lemma_parse_all(b, pos + 4, cs, e, f);
}

pub proof fn lemma_parse_segments(b: Seq<u8>, pos: int, xs: Seq<u32>)
    requires
        holds_at(b, pos, enc_segments(xs)),
        b.len() <= u32::MAX,
    ensures
        parse_segments(b, pos) == Some((xs, pos + enc_segments(xs).len())),
{
    lemma_le_round_trips();
    let e = |x: u32| spec_u32_to_le_bytes(x);
    let f = |b: Seq<u8>, p: int| parse_u32(b, p);
    lemma_holds_split(b, pos, spec_u32_to_le_bytes(xs.len() as u32), enc_all(xs, e));
    lemma_enc_all_len(xs, e);
    lemma_parse_u32(b, pos, xs.len() as u32);
    assert forall|i: int, p: int|
        #![trigger holds_at(b, p, e(xs[i]))]
        0 <= i < xs.len() && holds_at(b, p, e(xs[i])) implies f(b, p) == Some((xs[i], p + e(xs[i]).len())) by {
        lemma_parse_u32(b, p, xs[i]);
    }
    lemma_parse_all(b, pos + 4, xs, e, f);
}

pub proof fn lemma_parse_meta(b: Seq<u8>, pos: int, m: (Seq<(Seq<char>, DataType)>, Seq<u32>))
    requires
        holds_at(b, pos, enc_meta(m)),
        b.len() <= u32::MAX,
    ensures
        parse_meta(b, pos) == Some((m, pos + enc_meta(m).len())),
{
    lemma_holds_split(b, pos, enc_schema(m.0), enc_segments(m.1));
    lemma_parse_schema(b, pos, m.0);
    lemma_parse_segments(b, pos + enc_schema(m.0).len(), m.1);
}

fn put_type(out: &mut Vec<u8>, t: DataType)
    ensures
        final(out)@ == old(out)@ + seq![type_tag(t)],
{
    let tag: u8 = match t {
        DataType::Int => 0,
        DataType::Float => 1,
        DataType::String => 2,
        DataType::Bool => 3,
        DataType::Null => 4,
    };
    put_u8(out, tag);
}

fn get_type(x: u8) -> (r: Option<DataType>)
    ensures
        r == tag_type(x),
{
    if x == 0 {
        Some(DataType::Int)
    } else if x == 1 {
        Some(DataType::Float)
    } else if x == 2 {
        Some(DataType::String)
    } else if x == 3 {
        Some(DataType::Bool)
    } else if x == 4 {
        Some(DataType::Null)
    } else {
        None
    }
}

pub fn put_schema(out: &mut Vec<u8>, schema: &Schema)
    ensures
        final(out)@ == old(out)@ + enc_schema(schema@),
{
    let ghost out0 = out@;
    let cols = &schema.columns;
    put_u32(out, #[verifier::truncate] (cols.len() as u32));
    let ghost out1 = out@;
    let mut i: usize = 0;
    while i < cols.len()
        invariant
            i <= cols@.len(),
            out@ == out1 + enc_all(columns_view(cols@.subrange(0, i as int)), |c: (Seq<char>, DataType)| enc_column(c)),
        decreases cols@.len() - i,
    {
        let c = &cols[i];
        put_str(out, c.name.as_str());
        put_type(out, c.data_type);
        proof {
            let before = columns_view(cols@.subrange(0, i as int));
            assert(columns_view(cols@.subrange(0, i + 1)) =~= before.push(c@));
            lemma_enc_all_push(before, c@, |c: (Seq<char>, DataType)| enc_column(c));
            assert(out@ =~= out1 + enc_all(before, |c: (Seq<char>, DataType)| enc_column(c)) + enc_column(c@));
        }
        i = i + 1;
    }
    assert(cols@.subrange(0, cols@.len() as int) =~= cols@);
}

pub fn get_schema(b: &[u8], pos: usize) -> (r: Option<(Schema, usize)>)
    ensures
        match r {
            Some((s, p)) => p <= b@.len() && pos <= p && parse_schema(b@, pos as int) == Some((s@, p as int)),
            None => parse_schema(b@, pos as int) is None,
        },
{
    let (n, p0) = match get_u32(b, pos) {
        Some(x) => x,
        None => return None,
    };
    let mut cols: Vec<Column> = Vec::new();
    let mut p = p0;
    let mut i: u32 = 0;
    while i < n
        invariant
            i <= n,
            parse_u32(b@, pos as int) == Some((n, p0 as int)),
            pos <= p0 <= p <= b@.len(),
            parse_columns(b@, p0 as int, n as nat) == (match parse_columns(b@, p as int, (n - i) as nat) {
                Some((rest, q)) => Some((columns_view(cols@) + rest, q)),
                None => None,
            }),
        decreases n - i,
    {
        let ghost rest_n = (n - i - 1) as nat;
        let (name, p1) = match get_str(b, p) {
            Some(x) => x,
            None => {
                assert(parse_columns(b@, p as int, (n - i) as nat) is None);
                return None;
            },
        };
        let (t, p2) = match get_u8(b, p1) {
            Some(x) => x,
            None => {
                assert(parse_columns(b@, p as int, (n - i) as nat) is None);
                return None;
            },
        };
        let dt = match get_type(t) {
            Some(d) => d,
            None => {
                assert(parse_columns(b@, p as int, (n - i) as nat) is None);
                return None;
            },
        };
        let c = Column { name, data_type: dt };
        proof {
            let rest_n = (n - i - 1) as nat;
            assert(parse_column(b@, p as int) == Some((c@, p2 as int)));
            assert(columns_view(cols@.push(c)) =~= columns_view(cols@).push(c@));
            match parse_columns(b@, p2 as int, rest_n) {
                Some((rest, q)) => {
                    assert(columns_view(cols@).push(c@) + rest =~= columns_view(cols@) + (seq![c@] + rest));
                },
                None => {},
            }
        }
        cols.push(c);
        p = p2;
        i = i + 1;
    }
    assert(columns_view(cols@) + Seq::<(Seq<char>, DataType)>::empty() =~= columns_view(cols@));
    Some((Schema { columns: cols }, p))
}

pub fn put_segments(out: &mut Vec<u8>, xs: &Vec<u32>)
    ensures
        final(out)@ == old(out)@ + enc_segments(xs@),
{
    put_u32(out, #[verifier::truncate] (xs.len() as u32));
    let ghost out1 = out@;
    let mut i: usize = 0;
    while i < xs.len()
        invariant
            i <= xs@.len(),
            out@ == out1 + enc_all(xs@.subrange(0, i as int), |x: u32| spec_u32_to_le_bytes(x)),
        decreases xs@.len() - i,
    {
        put_u32(out, xs[i]);
        proof {
            assert(xs@.subrange(0, i + 1) =~= xs@.subrange(0, i as int).push(xs@[i as int]));
            lemma_enc_all_push(xs@.subrange(0, i as int), xs@[i as int], |x: u32| spec_u32_to_le_bytes(x));
            assert(out@ =~= out1 + enc_all(xs@.subrange(0, i as int), |x: u32| spec_u32_to_le_bytes(x)) + spec_u32_to_le_bytes(xs@[i as int]));
        }
        i = i + 1;
    }
    assert(xs@.subrange(0, xs@.len() as int) =~= xs@);
}

pub fn get_segments(b: &[u8], pos: usize) -> (r: Option<(Vec<u32>, usize)>)
    ensures
        match r {
            Some((xs, p)) => p <= b@.len() && pos <= p && parse_segments(b@, pos as int) == Some((xs@, p as int)),
            None => parse_segments(b@, pos as int) is None,
        },
{
    let (n, p0) = match get_u32(b, pos) {
        Some(x) => x,
        None => return None,
    };
    let mut xs: Vec<u32> = Vec::new();
    let mut p = p0;
    let mut i: u32 = 0;
    while i < n
        invariant
            i <= n,
            parse_u32(b@, pos as int) == Some((n, p0 as int)),
            pos <= p0 <= p <= b@.len(),
            parse_u32s(b@, p0 as int, n as nat) == (match parse_u32s(b@, p as int, (n - i) as nat) {
                Some((rest, q)) => Some((xs@ + rest, q)),
                None => None,
            }),
        decreases n - i,
    {
        let (x, p1) = match get_u32(b, p) {
            Some(v) => v,
            None => {
                assert(parse_u32s(b@, p as int, (n - i) as nat) is None);
                return None;
            },
        };
        proof {
            let rest_n = (n - i - 1) as nat;
            match parse_u32s(b@, p1 as int, rest_n) {
                Some((rest, q)) => {
                    assert(xs@.push(x) + rest =~= xs@ + (seq![x] + rest));
                },
                None => {},
            }
        }
        xs.push(x);
        p = p1;
        i = i + 1;
    }
    assert(xs@ + Seq::<u32>::empty() =~= xs@);
    Some((xs, p))
}

pub fn put_value(out: &mut Vec<u8>, v: &Value)
    ensures
        final(out)@ == old(out)@ + enc_value(v@),
{
    let ghost out0 = out@;
    match v {
        Value::Null => put_u8(out, 0),
        Value::Int(n) => {
            put_u8(out, 1);
            put_u64(out, #[verifier::truncate] (*n as u64));
        },
        Value::Float(f) => {
            put_u8(out, 2);
            put_u64(out, *f);
        },
        Value::String(s) => {
            put_u8(out, 3);
            put_str(out, s.as_str());
        },
        Value::Bool(x) => {
            put_u8(out, 4);
            put_u8(out, if *x { 1 } else { 0 });
        },
    }
    assert(out@ =~= out0 + enc_value(v@));
}

pub fn get_value(b: &[u8], pos: usize) -> (r: Option<(Value, usize)>)
    ensures
        match r {
            Some((v, p)) => parse_value(b@, pos as int) == Some((v@, p as int)),
            None => parse_value(b@, pos as int) is None,
        },
{
    let (t, p) = match get_u8(b, pos) {
        Some(x) => x,
        None => return None,
    };
    if t == 0 {
        Some((Value::Null, p))
    } else if t == 1 {
        match get_u64(b, p) {
            Some((x, q)) => Some((Value::Int(#[verifier::truncate] (x as i64)), q)),
            None => None,
        }
    } else if t == 2 {
        match get_u64(b, p) {
            Some((x, q)) => Some((Value::Float(x), q)),
            None => None,
        }
    } else if t == 3 {
        match get_str(b, p) {
            Some((s, q)) => Some((Value::String(s), q)),
            None => None,
        }
    } else if t == 4 {
        match get_u8(b, p) {
            Some((x, q)) => Some((Value::Bool(x != 0), q)),
            None => None,
        }
    } else {
        None
    }
}

pub fn put_row(out: &mut Vec<u8>, row: &Row)
    ensures
        final(out)@ == old(out)@ + enc_row(row@),
{
    let vs = &row.values;
    put_u32(out, #[verifier::truncate] (vs.len() as u32));
    let ghost out1 = out@;
    let mut i: usize = 0;
    while i < vs.len()
        invariant
            i <= vs@.len(),
            out@ == out1 + enc_all(values_view(vs@.subrange(0, i as int)), |v: ValueV| enc_value(v)),
        decreases vs@.len() - i,
    {
        put_value(out, &vs[i]);
        proof {
            let before = values_view(vs@.subrange(0, i as int));
            assert(values_view(vs@.subrange(0, i + 1)) =~= before.push(vs@[i as int]@));
            lemma_enc_all_push(before, vs@[i as int]@, |v: ValueV| enc_value(v));
            assert(out@ =~= out1 + enc_all(before, |v: ValueV| enc_value(v)) + enc_value(vs@[i as int]@));
        }
        i = i + 1;
    }
    assert(vs@.subrange(0, vs@.len() as int) =~= vs@);
}

pub fn get_row(b: &[u8], pos: usize) -> (r: Option<(Row, usize)>)
    ensures
        match r {
            Some((row, p)) => parse_row(b@, pos as int) == Some((row@, p as int)),
            None => parse_row(b@, pos as int) is None,
        },
{
    let (n, p0) = match get_u32(b, pos) {
        Some(x) => x,
        None => return None,
    };
    let mut vs: Vec<Value> = Vec::new();
    let mut p = p0;
    let mut i: u32 = 0;
    while i < n
        invariant
            i <= n,
            parse_u32(b@, pos as int) == Some((n, p0 as int)),
            parse_values(b@, p0 as int, n as nat) == (match parse_values(b@, p as int, (n - i) as nat) {
                Some((rest, q)) => Some((values_view(vs@) + rest, q)),
                None => None,
            }),
        decreases n - i,
    {
        let (v, p1) = match get_value(b, p) {
            Some(x) => x,
            None => {
                assert(parse_values(b@, p as int, (n - i) as nat) is None);
                return None;
            },
        };
        proof {
            let rest_n = (n - i - 1) as nat;
            assert(values_view(vs@.push(v)) =~= values_view(vs@).push(v@));
            match parse_values(b@, p1 as int, rest_n) {
                Some((rest, q)) => {
                    assert(values_view(vs@).push(v@) + rest =~= values_view(vs@) + (seq![v@] + rest));
                },
                None => {},
            }
        }
        vs.push(v);
        p = p1;
        i = i + 1;
    }
    assert(values_view(vs@) + Seq::<ValueV>::empty() =~= values_view(vs@));
    Some((Row { values: vs }, p))
}

pub proof fn lemma_parse_value(b: Seq<u8>, pos: int, v: ValueV)
    requires
        holds_at(b, pos, enc_value(v)),
        b.len() <= u32::MAX,
    ensures
        parse_value(b, pos) == Some((v, pos + enc_value(v).len())),
{
    lemma_le_round_trips();
    let e = enc_value(v);
    assert(b[pos] == b.subrange(pos, pos + e.len())[0]);
    match v {
        ValueV::Null => {},
        ValueV::Int(n) => {
            lemma_holds_split(b, pos, seq![1u8], spec_u64_to_le_bytes(n as u64));
            lemma_parse_u64(b, pos + 1, n as u64);
            assert((n as u64) as i64 == n) by (bit_vector);
        },
        ValueV::Float(f) => {
            lemma_holds_split(b, pos, seq![2u8], spec_u64_to_le_bytes(f));
            lemma_parse_u64(b, pos + 1, f);
        },
        ValueV::Str(t) => {
            lemma_holds_split(b, pos, seq![3u8], enc_str(t));
            lemma_enc_str_len(t);
            lemma_parse_str(b, pos + 1, t);
        },
        ValueV::Bool(x) => {
            assert(b[pos + 1] == b.subrange(pos, pos + e.len())[1]);
        },
    }
}

/// A row written and read back is the same row.
pub proof fn lemma_row_round_trip(b: Seq<u8>, pos: int, vs: Seq<ValueV>)
    requires
        holds_at(b, pos, enc_row(vs)),
        b.len() <= u32::MAX,
    ensures
        parse_row(b, pos) == Some((vs, pos + enc_row(vs).len())),
{
    lemma_le_round_trips();
    let e = |v: ValueV| enc_value(v);
    let f = |b: Seq<u8>, p: int| parse_value(b, p);
    lemma_holds_split(b, pos, spec_u32_to_le_bytes(vs.len() as u32), enc_all(vs, e));
    assert forall|i: int| 0 <= i < vs.len() implies #[trigger] e(vs[i]).len() >= 1 by {
        match vs[i] {
            ValueV::Str(t) => lemma_enc_str_len(t),
            _ => {},
        }
    }
    lemma_enc_all_len(vs, e);
    lemma_parse_u32(b, pos, vs.len() as u32);
    assert forall|i: int, p: int|
        #![trigger holds_at(b, p, e(vs[i]))]
        0 <= i < vs.len() && holds_at(b, p, e(vs[i])) implies f(b, p) == Some((vs[i], p + e(vs[i]).len())) by {
        lemma_parse_value(b, p, vs[i]);
    }
    lemma_parse_all(b, pos + 4, vs, e, f);
}

} // verus!
