use vstd::prelude::*;
use crate::bytes::{le_bytes, le_value, lemma_le_round_trip, push_u32_le, read_u32_le};
use crate::error::CodecError;
use crate::qbit::{
    decode_outcome, decode_window, decoded_view, lemma_qbit_round_trip, payload_len, valid_planes,
    QBit, ScalarType,
};
use crate::seqs::{all_len, flatten, lemma_chunks_of_flatten, lemma_flatten_concat, lemma_flatten_push};

verus! {

/// Presence byte of a Nullable value that is there.
pub const PRESENT: u8 = 0;

/// Presence byte of a Nullable value that is absent.
pub const ABSENT: u8 = 1;

pub open spec fn option_view(v: Option<QBit>) -> Option<Seq<Seq<u8>>> {
    match v {
        Some(q) => Some(q@),
        None => None,
    }
}

/// A Nullable row: the presence byte, then the planes only when present.
pub open spec fn nullable_bytes(v: Option<Seq<Seq<u8>>>) -> Seq<u8> {
    match v {
        Some(p) => seq![PRESENT] + flatten(p),
        None => seq![ABSENT],
    }
}

/// Appends `v` as a Nullable value.
pub fn encode_nullable(v: &Option<QBit>, out: &mut Vec<u8>)
    ensures
        final(out)@ == old(out)@ + nullable_bytes(option_view(*v)),
{
    match v {
        Some(q) => {
            out.push(PRESENT);
            q.encode(out);
            assert(out@ =~= old(out)@ + nullable_bytes(option_view(*v)));
        },
        None => {
            out.push(ABSENT);
            assert(out@ =~= old(out)@ + nullable_bytes(option_view(*v)));
        },
    }
}

/// Reads a Nullable vector at `pos`; the second part of the result is the
/// number of bytes read, the presence byte included.
pub fn decode_nullable(b: &[u8], pos: usize, dimension: usize, scalar: ScalarType) -> (r: Result<(Option<QBit>, usize), CodecError>)
    ensures
        pos >= b@.len() ==> r == Err::<(Option<QBit>, usize), CodecError>(CodecError::Truncated),
        pos < b@.len() && b@[pos as int] == ABSENT ==> r is Ok && r.unwrap().0 is None && r.unwrap().1 == 1,
        pos < b@.len() && b@[pos as int] > ABSENT ==> r == Err::<(Option<QBit>, usize), CodecError>(CodecError::InvalidNullFlag),
        pos < b@.len() && b@[pos as int] == PRESENT ==> {
            &&& r is Ok ==> r.unwrap().0 is Some && r.unwrap().0.unwrap().wf()
            &&& decode_outcome(
                b@,
                pos + 1,
                dimension as int,
                scalar,
                match r {
                    Ok((Some(q), n)) => Ok((q@, n - 1)),
                    Ok((None, n)) => Ok((Seq::empty(), n - 1)),
                    Err(e) => Err(e),
                },
            )
        },
{
    if pos >= b.len() {
        return Err(CodecError::Truncated);
    }
    let flag = b[pos];
    if flag == ABSENT {
        Ok((None, 1))
    } else if flag == PRESENT {
        let r = QBit::decode(b, pos + 1, dimension, scalar);
        match r {
            Ok((q, n)) => Ok((Some(q), n + 1)),
            Err(e) => Err(e),
        }
    } else {
        Err(CodecError::InvalidNullFlag)
    }
}

/// A column of Nullable rows: each row's bytes, one row after another.
pub open spec fn nullable_rows_bytes(rows: Seq<Option<Seq<Seq<u8>>>>) -> Seq<u8> {
    flatten(Seq::new(rows.len(), |k: int| nullable_bytes(rows[k])))
}

/// Where row `k` of a Nullable column starts.
pub open spec fn row_offset(rows: Seq<Option<Seq<Seq<u8>>>>, k: int) -> int {
    nullable_rows_bytes(rows.subrange(0, k)).len() as int
}

/// Appends `rows` as a column of Nullable vectors.
pub fn encode_nullable_rows(rows: &Vec<Option<QBit>>, out: &mut Vec<u8>)
    ensures
        final(out)@ == old(out)@ + nullable_rows_bytes(rows@.map_values(|v: Option<QBit>| option_view(v))),
{
    let ghost s = rows@.map_values(|v: Option<QBit>| option_view(v));
    let ghost f = Seq::new(s.len(), |k: int| nullable_bytes(s[k]));
    let mut i: usize = 0;
    while i < rows.len()
        invariant
            s == rows@.map_values(|v: Option<QBit>| option_view(v)),
            f == Seq::new(s.len(), |k: int| nullable_bytes(s[k])),
            i <= rows@.len(),
            out@ == old(out)@ + flatten(f.subrange(0, i as int)),
        decreases rows.len() - i,
    {
        encode_nullable(&rows[i], out);
        proof {
            lemma_flatten_push(f.subrange(0, i as int), f[i as int]);
            assert(f.subrange(0, i as int).push(f[i as int]) =~= f.subrange(0, i + 1));
        }
        i = i + 1;
    }
    assert(f.subrange(0, i as int) =~= f);
}

/// In a column of Nullable rows, every row reads back as it was written, at
/// the offset that the rows before it end at: an absent row is its presence
/// byte alone, and a present row's planes are untouched by absent neighbours.
pub proof fn lemma_nullable_rows_round_trip(rows: Seq<Option<Seq<Seq<u8>>>>, k: int, scalar: ScalarType)
    requires
        0 <= k < rows.len(),
        forall|i: int|
            0 <= i < rows.len() && (#[trigger] rows[i]) is Some ==> valid_planes(
                rows[i].unwrap(),
                scalar.bits(),
            ),
    ensures
        ({
            let b = nullable_rows_bytes(rows);
            let p = row_offset(rows, k);
            &&& row_offset(rows, k + 1) == p + nullable_bytes(rows[k]).len()
            &&& match rows[k] {
                None => b[p] == ABSENT && nullable_bytes(rows[k]).len() == 1,
                Some(planes) => {
                    let d = planes[0].len() as int;
                    &&& b[p] == PRESENT
                    &&& p + 1 + payload_len(d, scalar.bits()) <= b.len()
                    &&& decode_window(b, p + 1, d, scalar.bits()) == planes
                },
            }
        }),
{
    let f = Seq::new(rows.len(), |i: int| nullable_bytes(rows[i]));
    let before = flatten(f.subrange(0, k));
    let after = flatten(f.subrange(k + 1, rows.len() as int));
    assert(f =~= f.subrange(0, k) + seq![f[k]] + f.subrange(k + 1, rows.len() as int));
    lemma_flatten_concat(f.subrange(0, k) + seq![f[k]], f.subrange(k + 1, rows.len() as int));
    lemma_flatten_concat(f.subrange(0, k), seq![f[k]]);
    assert(flatten(seq![f[k]]) =~= f[k]) by {
        let one = seq![f[k]];
        assert(one.drop_last() =~= Seq::<Seq<u8>>::empty());
        assert(flatten(one.drop_last()) =~= Seq::<u8>::empty());
        assert(one.last() == f[k]);
        assert(flatten(one) == flatten(one.drop_last()) + one.last());
    }
    assert(Seq::new(k as nat, |i: int| nullable_bytes(rows.subrange(0, k)[i])) =~= f.subrange(0, k));
    assert(Seq::new((k + 1) as nat, |i: int| nullable_bytes(rows.subrange(0, k + 1)[i])) =~= f.subrange(0, k)
        + seq![f[k]]);
    lemma_nullable_round_trip(before, rows[k], after, scalar);
}

/// The bytes of an Array of vectors: a four-byte little-endian count, then
/// each vector's planes in order.
pub open spec fn array_bytes(items: Seq<Seq<Seq<u8>>>) -> Seq<u8> {
    le_bytes(items.len() as u32) + flatten(Seq::new(items.len(), |k: int| flatten(items[k])))
}

/// Where element `k` of an Array at `pos` starts.
pub open spec fn element_start(pos: int, dimension: int, scalar: ScalarType, k: int) -> int {
    pos + 4 + k * payload_len(dimension, scalar.bits())
}

/// Appends `items` as an Array.
pub fn encode_array(items: &Vec<QBit>, out: &mut Vec<u8>)
    requires
        items@.len() <= u32::MAX,
    ensures
        final(out)@ == old(out)@ + array_bytes(items@.map_values(|q: QBit| q@)),
{
    let ghost s = items@.map_values(|q: QBit| q@);
    let ghost f = Seq::new(s.len(), |k: int| flatten(s[k]));
    push_u32_le(items.len() as u32, out);
    let ghost start = out@;
    let mut i: usize = 0;
    while i < items.len()
        invariant
            s == items@.map_values(|q: QBit| q@),
            f == Seq::new(s.len(), |k: int| flatten(s[k])),
            i <= items@.len(),
            out@ == start + flatten(f.subrange(0, i as int)),
        decreases items.len() - i,
    {
        items[i].encode(out);
        proof {
            lemma_flatten_push(f.subrange(0, i as int), f[i as int]);
            assert(f.subrange(0, i as int).push(f[i as int]) =~= f.subrange(0, i + 1));
        }
        i = i + 1;
    }
    assert(f.subrange(0, i as int) =~= f);
    assert(out@ =~= old(out)@ + array_bytes(s));
}

/// Reads an Array of vectors at `pos`; the second part of the result is the
/// number of bytes read.
pub fn decode_array(b: &[u8], pos: usize, dimension: usize, scalar: ScalarType) -> (r: Result<(Vec<QBit>, usize), CodecError>)
    ensures
        pos + 4 > b@.len() ==> r == Err::<(Vec<QBit>, usize), CodecError>(CodecError::Truncated),
        r is Ok ==> {
            let (v, n) = r.unwrap();
            let count = le_value(b@, pos as int);
            &&& pos + 4 <= b@.len()
            &&& v@.len() == count
            &&& n == 4 + count * payload_len(dimension as int, scalar.bits())
            &&& pos + n <= b@.len()
            &&& forall|k: int|
                0 <= k < count ==> v@[k].wf() && #[trigger] v@[k]@ == decode_window(
                    b@,
                    element_start(pos as int, dimension as int, scalar, k),
                    dimension as int,
                    scalar.bits(),
                )
        },
        ({
            let count = le_value(b@, pos as int);
            &&& pos + 4 <= b@.len()
            &&& forall|k: int|
                0 <= k < count ==> element_start(pos as int, dimension as int, scalar, k)
                    + payload_len(dimension as int, scalar.bits()) <= b@.len() && valid_planes(
                    #[trigger] decode_window(
                        b@,
                        element_start(pos as int, dimension as int, scalar, k),
                        dimension as int,
                        scalar.bits(),
                    ),
                    scalar.bits(),
                )
        }) ==> r is Ok,
{
    if pos > b.len() || b.len() - pos < 4 {
        return Err(CodecError::Truncated);
    }
    let count = read_u32_le(b, pos);
    let ghost size = payload_len(dimension as int, scalar.bits());
    let mut items: Vec<QBit> = Vec::new();
    let len = b.len();
    let mut at: usize = pos + 4;
    let mut i: u32 = 0;
    while i < count
        invariant
            len == b@.len(),
            pos + 4 <= b@.len(),
            count == le_value(b@, pos as int),
            size == payload_len(dimension as int, scalar.bits()),
            i <= count,
            at == element_start(pos as int, dimension as int, scalar, i as int),
            at <= b@.len(),
            items@.len() == i,
            forall|k: int|
                0 <= k < i ==> items@[k].wf() && #[trigger] items@[k]@ == decode_window(
                    b@,
                    element_start(pos as int, dimension as int, scalar, k),
                    dimension as int,
                    scalar.bits(),
                ),
        decreases count - i,
    {
        let r = QBit::decode(b, at, dimension, scalar);
        match r {
            Ok((q, n)) => {
                assert(decoded_view(r) is Ok);
                assert(at + size <= b@.len());
                assert(element_start(pos as int, dimension as int, scalar, i + 1) == at + size) by (nonlinear_arith)
                    requires
                        at == element_start(pos as int, dimension as int, scalar, i as int),
                        size == payload_len(dimension as int, scalar.bits()),
                ;
                items.push(q);
                at = at + n;
                i = i + 1;
            },
            Err(e) => {
                assert(decode_window(
                    b@,
                    element_start(pos as int, dimension as int, scalar, i as int),
                    dimension as int,
                    scalar.bits(),
                ) == decode_window(b@, at as int, dimension as int, scalar.bits()));
                return Err(e);
            },
        }
    }
    assert(at - pos == 4 + count * size) by (nonlinear_arith)
        requires
            at == element_start(pos as int, dimension as int, scalar, count as int),
            size == payload_len(dimension as int, scalar.bits()),
    ;
    Ok((items, at - pos))
}

/// A Nullable row, wherever it stands among other bytes, reads back as it was
/// written: an absent row is its presence byte alone, and the planes of a
/// present one follow its presence byte untouched by its neighbours.
pub proof fn lemma_nullable_round_trip(
    prefix: Seq<u8>,
    v: Option<Seq<Seq<u8>>>,
    suffix: Seq<u8>,
    scalar: ScalarType,
)
    requires
        v is Some ==> valid_planes(v.unwrap(), scalar.bits()),
    ensures
        ({
            let b = prefix + nullable_bytes(v) + suffix;
            let p = prefix.len() as int;
            match v {
                None => b[p] == ABSENT && nullable_bytes(v).len() == 1,
                Some(planes) => {
                    let d = planes[0].len() as int;
                    &&& b[p] == PRESENT
                    &&& nullable_bytes(v).len() == 1 + payload_len(d, scalar.bits())
                    &&& p + 1 + payload_len(d, scalar.bits()) <= b.len()
                    &&& decode_window(b, p + 1, d, scalar.bits()) == planes
                },
            }
        }),
{
    let b = prefix + nullable_bytes(v) + suffix;
    let p = prefix.len() as int;
    if let Some(planes) = v {
        lemma_qbit_round_trip(prefix.push(PRESENT), planes, suffix, scalar);
        assert(b =~= prefix.push(PRESENT) + flatten(planes) + suffix);
    }
}

/// An Array of vectors of one shape, wherever it stands among other bytes,
/// reads back with its count, its order and every element byte for byte.
pub proof fn lemma_array_round_trip(
    prefix: Seq<u8>,
    items: Seq<Seq<Seq<u8>>>,
    suffix: Seq<u8>,
    dimension: int,
    scalar: ScalarType,
)
    requires
        items.len() <= u32::MAX,
        dimension > 0,
        forall|k: int|
            0 <= k < items.len() ==> valid_planes(#[trigger] items[k], scalar.bits()) && items[k][0].len()
                == dimension,
    ensures
        ({
            let b = prefix + array_bytes(items) + suffix;
            let p = prefix.len() as int;
            &&& le_value(b, p) == items.len()
            &&& p + 4 + items.len() * payload_len(dimension, scalar.bits()) <= b.len()
            &&& forall|k: int|
                0 <= k < items.len() ==> #[trigger] decode_window(
                    b,
                    element_start(p, dimension, scalar, k),
                    dimension,
                    scalar.bits(),
                ) == items[k]
        }),
{
    let b = prefix + array_bytes(items) + suffix;
    let p = prefix.len() as int;
    let size = payload_len(dimension, scalar.bits());
    let f = Seq::new(items.len(), |k: int| flatten(items[k]));
    let head = prefix + le_bytes(items.len() as u32);
    assert(b =~= head + flatten(f) + suffix);
    assert forall|k: int| 0 <= k < f.len() implies (#[trigger] f[k]).len() == size by {
        lemma_qbit_round_trip(Seq::empty(), items[k], Seq::empty(), scalar);
    }
    assert(all_len(f, size));
    assert(size >= 0) by (nonlinear_arith)
        requires
            dimension > 0,
            size == dimension * scalar.bits(),
    ;
    lemma_chunks_of_flatten(head, f, suffix, size);
    lemma_le_round_trip(items.len() as u32);
    assert(b[p] == le_bytes(items.len() as u32)[0]);
    assert(b[p + 1] == le_bytes(items.len() as u32)[1]);
    assert(b[p + 2] == le_bytes(items.len() as u32)[2]);
    assert(b[p + 3] == le_bytes(items.len() as u32)[3]);
    assert forall|k: int| 0 <= k < items.len() implies #[trigger] decode_window(
        b,
        element_start(p, dimension, scalar, k),
        dimension,
        scalar.bits(),
    ) == items[k] by {
        let s = element_start(p, dimension, scalar, k);
        assert(k * size + size <= items.len() * size) by (nonlinear_arith)
            requires
                0 <= k < items.len(),
                size >= 0,
        ;
        assert(b.subrange(s, s + size) == f[k]);
        lemma_qbit_round_trip(b.subrange(0, s), items[k], b.subrange(s + size, b.len() as int), scalar);
        assert(b =~= b.subrange(0, s) + flatten(items[k]) + b.subrange(s + size, b.len() as int));
    }
}

} // verus!
