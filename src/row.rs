//! The byte layout of a row: `[count: u32]` then, per value, a tag byte and a
//! body. Tag 0 is an integer (`i64`, little-endian); tag 1 a string (`u32`
//! byte length, then its UTF-8 bytes).
use vstd::prelude::*;
use vstd::utf8::{decode_utf8, encode_utf8, valid_utf8};
use crate::binder::{Value, ValueModel, values_model};
use crate::bytes::{
    le_u32, le_u64, lemma_u32_round_trip, lemma_u64_round_trip, push_u32, push_u64, read_u32,
    read_u64, u32_at, u64_at,
};

verus! {

broadcast use vstd::utf8::group_utf8_lib;

/// Why bytes could not be read as a row.
#[derive(Debug, Clone, Copy, PartialEq, Eq, Structural)]
pub enum RowError {
    /// The bytes end before the row does.
    Truncated,
    /// A value starts with a tag other than 0 or 1.
    InvalidTag,
    /// A string's bytes are not UTF-8.
    InvalidUtf8,
}

/// The bytes of one value.
pub open spec fn value_bytes(v: ValueModel) -> Seq<u8> {
    match v {
        ValueModel::Int(i) => seq![0u8] + le_u64(i as u64),
        ValueModel::Str(s) => seq![1u8] + le_u32(encode_utf8(s).len() as u32) + encode_utf8(s),
    }
}

/// The bytes of the values one after the other.
pub open spec fn values_bytes(vs: Seq<ValueModel>) -> Seq<u8>
    decreases vs.len(),
{
    if vs.len() == 0 {
        Seq::empty()
    } else {
        value_bytes(vs[0]) + values_bytes(vs.skip(1))
    }
}

/// The bytes of a row.
pub open spec fn row_bytes(vs: Seq<ValueModel>) -> Seq<u8> {
    le_u32(vs.len() as u32) + values_bytes(vs)
}

/// A row can be written when its count and each string's byte length fit in
/// a `u32`.
pub open spec fn row_fits(vs: Seq<ValueModel>) -> bool {
    &&& vs.len() <= u32::MAX
    &&& forall|i: int|
        0 <= i < vs.len() ==> (#[trigger] vs[i] matches ValueModel::Str(s) ==> encode_utf8(s).len()
            <= u32::MAX)
}

/// The value at the start of `b` and the number of bytes it takes.
pub open spec fn decode_value(b: Seq<u8>) -> Option<(ValueModel, nat)> {
    if b.len() >= 9 && b[0] == 0 {
        Some((ValueModel::Int(u64_at(b, 1) as i64), 9))
    } else if b.len() >= 5 && b[0] == 1 {
        let n = u32_at(b, 1) as int;
        let body = b.subrange(5, 5 + n);
        if b.len() >= 5 + n && valid_utf8(body) {
            Some((ValueModel::Str(decode_utf8(body)), (5 + n) as nat))
        } else {
            None
        }
    } else {
        None
    }
}

/// `count` values read one after the other from the start of `b`.
pub open spec fn decode_values(b: Seq<u8>, count: nat) -> Option<Seq<ValueModel>>
    decreases count,
{
    if count == 0 {
        Some(Seq::empty())
    } else {
        match decode_value(b) {
            Some((v, n)) => match decode_values(b.skip(n as int), (count - 1) as nat) {
                Some(vs) => Some(seq![v] + vs),
                None => None,
            },
            None => None,
        }
    }
}

/// The row that `b` holds; bytes after its last value are ignored.
pub open spec fn decode_row(b: Seq<u8>) -> Option<Seq<ValueModel>> {
    if b.len() >= 4 {
        decode_values(b.skip(4), u32_at(b, 0) as nat)
    } else {
        None
    }
}

proof fn lemma_values_bytes_push(vs: Seq<ValueModel>, v: ValueModel)
    ensures
        values_bytes(vs.push(v)) == values_bytes(vs) + value_bytes(v),
    decreases vs.len(),
{
    if vs.len() == 0 {
        assert(vs.push(v).skip(1) =~= Seq::<ValueModel>::empty());
        assert(vs.push(v)[0] == v);
        assert(values_bytes(vs.push(v).skip(1)) == Seq::<u8>::empty());
        assert(values_bytes(vs) == Seq::<u8>::empty());
        assert(values_bytes(vs.push(v)) =~= values_bytes(vs) + value_bytes(v));
    } else {
        assert(vs.push(v).skip(1) =~= vs.skip(1).push(v));
        lemma_values_bytes_push(vs.skip(1), v);
        assert(vs.push(v)[0] == vs[0]);
        assert(values_bytes(vs.push(v)) =~= values_bytes(vs) + value_bytes(v));
    }
}

proof fn lemma_decode_value(v: ValueModel, rest: Seq<u8>)
    requires
        v matches ValueModel::Str(s) ==> encode_utf8(s).len() <= u32::MAX,
    ensures
        decode_value(value_bytes(v) + rest) == Some((v, value_bytes(v).len())),
{
    let b = value_bytes(v) + rest;
    match v {
        ValueModel::Int(i) => {
            let x = i as u64;
            lemma_u64_round_trip(x);
            assert(b.subrange(1, 9) =~= le_u64(x));
            assert(u64_at(b, 1) == u64_at(le_u64(x), 0));
            assert((x as i64) == i) by (bit_vector)
                requires
                    x == i as u64,
            ;
        },
        ValueModel::Str(s) => {
            let e = encode_utf8(s);
            let n = e.len() as u32;
            lemma_u32_round_trip(n);
            assert(u32_at(b, 1) == u32_at(le_u32(n), 0));
            assert(b.subrange(5, 5 + e.len() as int) =~= e);
        },
    }
}

proof fn lemma_decode_values(vs: Seq<ValueModel>, rest: Seq<u8>)
    requires
        row_fits(vs),
    ensures
        decode_values(values_bytes(vs) + rest, vs.len()) == Some(vs),
    decreases vs.len(),
{
    if vs.len() > 0 {
        let tail = vs.skip(1);
        assert(row_fits(tail)) by {
            assert forall|i: int| 0 <= i < tail.len() implies (#[trigger] tail[i] matches ValueModel::Str(
                s,
            ) ==> encode_utf8(s).len() <= u32::MAX) by {
                assert(tail[i] == vs[i + 1]);
            }
        }
        let b = values_bytes(vs) + rest;
        assert(b =~= value_bytes(vs[0]) + (values_bytes(tail) + rest));
        assert(vs[0] matches ValueModel::Str(s) ==> encode_utf8(s).len() <= u32::MAX);
        lemma_decode_value(vs[0], values_bytes(tail) + rest);
        assert(b.skip(value_bytes(vs[0]).len() as int) =~= values_bytes(tail) + rest);
        lemma_decode_values(tail, rest);
        assert(seq![vs[0]] + tail =~= vs);
    }
}

/// Reading a row back from its bytes gives the same values, whenever the
/// row can be written.
pub proof fn lemma_row_round_trip(vs: Seq<ValueModel>)
    requires
        row_fits(vs),
    ensures
        decode_row(row_bytes(vs)) == Some(vs),
{
    let b = row_bytes(vs);
    lemma_u32_round_trip(vs.len() as u32);
    assert(b.skip(4) =~= values_bytes(vs) + Seq::<u8>::empty());
    lemma_decode_values(vs, Seq::empty());
}

/// Relies on `String::from_utf8`: it accepts exactly the valid UTF-8 byte
/// sequences, and the string holds the characters they encode.
#[verifier::external_body]
fn string_from_utf8(b: Vec<u8>) -> (r: Option<String>)
    ensures
        match r {
            Some(s) => valid_utf8(b@) && s@ == decode_utf8(b@),
            None => !valid_utf8(b@),
        },
{
    String::from_utf8(b).ok()
}

/// Appends `src` to `buf`.
fn append_bytes(buf: &mut Vec<u8>, src: &[u8])
    ensures
        final(buf)@ == old(buf)@ + src@,
{
    let mut i: usize = 0;
    while i < src.len()
        invariant
            i <= src@.len(),
            buf@ == old(buf)@ + src@.take(i as int),
        decreases src@.len() - i,
    {
        buf.push(src[i]);
        i = i + 1;
        assert(buf@ =~= old(buf)@ + src@.take(i as int));
    }
    assert(src@.take(i as int) =~= src@);
}

/// The bytes `from..to` of `b`.
fn copy_range(b: &[u8], from: usize, to: usize) -> (r: Vec<u8>)
    requires
        from <= to <= b@.len(),
    ensures
        r@ == b@.subrange(from as int, to as int),
{
    let mut out: Vec<u8> = Vec::new();
    let mut i: usize = from;
    while i < to
        invariant
            from <= i <= to,
            to <= b@.len(),
            out@ == b@.subrange(from as int, i as int),
        decreases to - i,
    {
        out.push(b[i]);
        i = i + 1;
        assert(out@ =~= b@.subrange(from as int, i as int));
    }
    out
}

/// Writes a row of values.
pub fn serialize_row(values: &[Value]) -> (r: Vec<u8>)
    requires
        row_fits(values_model(values@)),
    ensures
        r@ == row_bytes(values_model(values@)),
{
    let ghost vs = values_model(values@);
    let mut result: Vec<u8> = Vec::new();
    push_u32(&mut result, values.len() as u32);
    let mut i: usize = 0;
    while i < values.len()
        invariant
            i <= values@.len(),
            vs == values_model(values@),
            row_fits(vs),
            result@ == le_u32(vs.len() as u32) + values_bytes(vs.take(i as int)),
        decreases values@.len() - i,
    {
        let ghost before = result@;
        match &values[i] {
            Value::Int(x) => {
                result.push(0);
                push_u64(&mut result, *x as u64);
            },
            Value::String(s) => {
                let b = s.as_str().as_bytes();
                assert(vs[i as int] matches ValueModel::Str(t) ==> encode_utf8(t).len() <= u32::MAX);
                result.push(1);
                push_u32(&mut result, b.len() as u32);
                append_bytes(&mut result, b);
            },
        }
        proof {
            lemma_values_bytes_push(vs.take(i as int), vs[i as int]);
            assert(vs.take(i + 1) =~= vs.take(i as int).push(vs[i as int]));
        }
        i = i + 1;
        assert(result@ =~= le_u32(vs.len() as u32) + values_bytes(vs.take(i as int)));
    }
    assert(vs.take(i as int) =~= vs);
    result
}

/// Reads a row of values; bytes after its last value are ignored.
pub fn deserialize_row(data: &[u8]) -> (r: Result<Vec<Value>, RowError>)
    ensures
        match r {
            Ok(vs) => decode_row(data@) == Some(values_model(vs@)),
            Err(_) => decode_row(data@) is None,
        },
{
    let len = data.len();
    if len < 4 {
        return Err(RowError::Truncated);
    }
    let count = read_u32(data, 0);
    let mut cursor: usize = 4;
    let mut values: Vec<Value> = Vec::new();
    let mut i: u32 = 0;
    while i < count
        invariant
            len == data@.len(),
            4 <= cursor <= len,
            i <= count,
            count == u32_at(data@, 0),
            decode_row(data@) == match decode_values(data@.skip(cursor as int), (count - i) as nat) {
                Some(rest) => Some(values_model(values@) + rest),
                None => None::<Seq<ValueModel>>,
            },
        decreases count - i,
    {
        let ghost b = data@.skip(cursor as int);
        let ghost acc = values_model(values@);
        if cursor >= len {
            return Err(RowError::Truncated);
        }
        let tag = data[cursor];
        let v: Value;
        let next: usize;
        if tag == 0 {
            if len - cursor < 9 {
                return Err(RowError::Truncated);
            }
            let x = read_u64(data, cursor + 1);
            proof {
                assert(u64_at(b, 1) == u64_at(data@, cursor + 1));
            }
            v = Value::Int(x as i64);
            next = cursor + 9;
        } else if tag == 1 {
            if len - cursor < 5 {
                return Err(RowError::Truncated);
            }
            let n = read_u32(data, cursor + 1) as usize;
            proof {
                assert(u32_at(b, 1) == u32_at(data@, cursor + 1));
            }
            if len - cursor - 5 < n {
                return Err(RowError::Truncated);
            }
            let body = copy_range(data, cursor + 5, cursor + 5 + n);
            assert(body@ =~= b.subrange(5, 5 + n as int));
            match string_from_utf8(body) {
                Some(s) => {
                    v = Value::String(s);
                },
                None => {
                    return Err(RowError::InvalidUtf8);
                },
            }
            next = cursor + 5 + n;
        } else {
            return Err(RowError::InvalidTag);
        }
        proof {
            assert(decode_value(b) == Some((v@, (next - cursor) as nat)));
            assert(b.skip(next - cursor) =~= data@.skip(next as int));
            assert(values_model(values@.push(v)) =~= acc.push(v@));
            assert forall|rest: Seq<ValueModel>| acc + (seq![v@] + rest) =~= acc.push(v@) + rest by {}
        }
        values.push(v);
        cursor = next;
        i = i + 1;
    }
    proof {
        assert(values_model(values@) + Seq::<ValueModel>::empty() =~= values_model(values@));
    }
    Ok(values)
}

} // verus!
