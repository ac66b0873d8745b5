//! The on-disk value encoding of a column data file.
//!
//! A data file is the concatenation, in insertion order, of encoded values:
//! an `Int32` is exactly 4 bytes, little-endian two's-complement; a
//! `Utf8String` is a 4-byte little-endian unsigned length prefix followed by
//! that many UTF-8 bytes. There are no separators, headers, or footers.
use crate::decimal::dec_chars;
use crate::decimal::i32_to_decimal;
use crate::errors::DbError;
use crate::schema::DataType;
use vstd::bytes::lemma_auto_spec_u32_to_from_le_bytes;
use vstd::bytes::spec_u32_from_le_bytes;
use vstd::bytes::spec_u32_to_le_bytes;
use vstd::bytes::u32_from_le_bytes;
use vstd::bytes::u32_to_le_bytes;
use vstd::prelude::*;
use vstd::slice::slice_subrange;
use vstd::slice::slice_to_vec;
use vstd::utf8::decode_utf8;
use vstd::utf8::encode_utf8;
use vstd::utf8::encode_utf8_decode_utf8;
use vstd::utf8::encode_utf8_valid_utf8;
use vstd::utf8::valid_utf8;

verus! {

/// A single stored value of a column.
#[derive(Debug, PartialEq)]
pub enum Value {
    Int(i32),
    Str(String),
}

/// The mathematical model of a stored value: the integer itself, or the
/// character sequence of a string.
pub enum ValueModel {
    Int(i32),
    Str(Seq<char>),
}

impl View for Value {
    type V = ValueModel;

    open spec fn view(&self) -> ValueModel {
        match self {
            Value::Int(x) => ValueModel::Int(*x),
            Value::Str(s) => ValueModel::Str(s@),
        }
    }
}

impl DeepView for Value {
    type V = ValueModel;

    open spec fn deep_view(&self) -> ValueModel {
        self.view()
    }
}

/// The 4 little-endian bytes of an integer value.
pub open spec fn int_bytes(x: i32) -> Seq<u8> {
    spec_u32_to_le_bytes(x as u32)
}

/// The length-prefixed UTF-8 bytes of a string value.
pub open spec fn str_bytes(s: Seq<char>) -> Seq<u8> {
    spec_u32_to_le_bytes(encode_utf8(s).len() as u32) + encode_utf8(s)
}

/// The encoded bytes of a value.
pub open spec fn value_bytes(m: ValueModel) -> Seq<u8> {
    match m {
        ValueModel::Int(x) => int_bytes(x),
        ValueModel::Str(s) => str_bytes(s),
    }
}

/// A value is storable in a column when it has the column's type and, for a
/// string, its byte length fits the 4-byte length prefix.
pub open spec fn value_wf(m: ValueModel, t: DataType) -> bool {
    match m {
        ValueModel::Int(_) => t is Int32,
        ValueModel::Str(s) => t is Utf8String && encode_utf8(s).len() <= u32::MAX,
    }
}

/// The textual form of a value, as used for zone-index bounds and equality
/// filtering: the decimal string of an integer, the string itself otherwise.
pub open spec fn value_form(m: ValueModel) -> Seq<char> {
    match m {
        ValueModel::Int(x) => dec_chars(x as int),
        ValueModel::Str(s) => s,
    }
}

/// The integers stored in a data file, read as consecutive 4-byte
/// little-endian values; a trailing fragment shorter than 4 bytes is ignored,
/// as a scan that stops at end-of-file ignores it.
pub open spec fn decoded_ints(data: Seq<u8>) -> Seq<i32>
    decreases data.len(),
{
    if data.len() < 4 {
        seq![]
    } else {
        seq![spec_u32_from_le_bytes(data.take(4)) as i32] + decoded_ints(data.skip(4))
    }
}

/// The strings stored in a data file, read as length-prefixed UTF-8 chunks.
/// `None` marks corrupt data: a length prefix that runs past end-of-file, or
/// a chunk that is not valid UTF-8. A trailing fragment shorter than a length
/// prefix is ignored.
pub open spec fn decoded_strs(data: Seq<u8>) -> Option<Seq<Seq<char>>>
    decreases data.len(),
{
    if data.len() < 4 {
        Some(seq![])
    } else {
        let n = spec_u32_from_le_bytes(data.take(4)) as int;
        if 4 + n > data.len() {
            None
        } else if !valid_utf8(data.subrange(4, 4 + n)) {
            None
        } else {
            match decoded_strs(data.skip(4 + n)) {
                Some(t) => Some(seq![decode_utf8(data.subrange(4, 4 + n))] + t),
                None => None,
            }
        }
    }
}

/// The values stored in a data file of the given column type.
pub open spec fn decoded_values(t: DataType, data: Seq<u8>) -> Option<Seq<ValueModel>> {
    match t {
        DataType::Int32 => Some(decoded_ints(data).map_values(|x: i32| ValueModel::Int(x))),
        DataType::Utf8String => match decoded_strs(data) {
            Some(ss) => Some(ss.map_values(|s: Seq<char>| ValueModel::Str(s))),
            None => None,
        },
    }
}

/// Relies on str::from_utf8: it succeeds exactly on valid UTF-8 input, and
/// the returned string is the decoding of those bytes.
#[verifier::external_body]
fn str_from_utf8_bytes(b: &[u8]) -> (r: Option<&str>)
    ensures
        r is Some <==> valid_utf8(b@),
        r matches Some(s) ==> s@ == decode_utf8(b@),
{
    core::str::from_utf8(b).ok()
}

/// Encodes an integer value as its 4 little-endian bytes.
pub fn encode_int_value(x: i32) -> (r: Vec<u8>)
    ensures
        r@ == int_bytes(x),
{
    u32_to_le_bytes(#[verifier::truncate] (x as u32))
}

/// Encodes a string value as a 4-byte little-endian length prefix followed by
/// its UTF-8 bytes. A string whose byte length does not fit the prefix cannot
/// be stored; `None` says so, and the caller reports which column it was for.
pub fn encode_str_value(s: &str) -> (r: Option<Vec<u8>>)
    ensures
        r matches Some(bytes) ==> bytes@ == str_bytes(s@) && encode_utf8(s@).len() <= u32::MAX,
        r is None <==> encode_utf8(s@).len() > u32::MAX,
{
    let b: &[u8] = s.as_bytes();
    let blen: usize = b.len();
    if blen as u64 > u32::MAX as u64 {
        return None;
    }
    let mut out: Vec<u8> = u32_to_le_bytes(blen as u32);
    let mut content: Vec<u8> = slice_to_vec(b);
    out.append(&mut content);
    proof {
        assert(out@ =~= str_bytes(s@));
    }
    Some(out)
}

/// Decodes a whole `Int32` data file front to back.
pub fn decode_int_column(data: &[u8]) -> (r: Vec<i32>)
    ensures
        r@ == decoded_ints(data@),
{
    let len: usize = data.len();
    let mut out: Vec<i32> = Vec::new();
    let mut i: usize = 0;
    proof {
        assert(data@.skip(0) =~= data@);
        assert(out@ + decoded_ints(data@) =~= decoded_ints(data@));
    }
    while len - i >= 4
        invariant
            i <= len,
            len == data@.len(),
            decoded_ints(data@) == out@ + decoded_ints(data@.skip(i as int)),
        decreases len - i,
    {
        let word: &[u8] = slice_subrange(data, i, i + 4);
        let u: u32 = u32_from_le_bytes(word);
        proof {
            let pre = data@.skip(i as int);
            assert(pre.take(4) =~= data@.subrange(i as int, i + 4));
            assert(pre.skip(4) =~= data@.skip(i + 4));
            assert(out@.push((u as i32)) + decoded_ints(data@.skip(i + 4)) =~= out@ + decoded_ints(
                pre,
            ));
        }
        out.push(#[verifier::truncate] (u as i32));
        i = i + 4;
    }
    proof {
        assert(decoded_ints(data@.skip(i as int)) =~= Seq::<i32>::empty());
        assert(out@ + Seq::<i32>::empty() =~= out@);
    }
    out
}

/// Decodes a whole `Utf8String` data file front to back, failing with
/// `CorruptData` exactly where the byte sequence is corrupt.
pub fn decode_str_column(data: &[u8]) -> (r: Result<Vec<String>, DbError>)
    ensures
        r matches Ok(out) ==> decoded_strs(data@) == Some(out.deep_view()),
        r is Err ==> r == Err::<Vec<String>, DbError>(DbError::CorruptData) && decoded_strs(data@)
            is None,
{
    let len: usize = data.len();
    let mut out: Vec<String> = Vec::new();
    let mut i: usize = 0;
    proof {
        assert(data@.skip(0) =~= data@);
        match decoded_strs(data@) {
            Some(t) => {
                assert(out.deep_view() + t =~= t);
            },
            None => {},
        }
    }
    while len - i >= 4
        invariant
            i <= len,
            len == data@.len(),
            decoded_strs(data@) == (match decoded_strs(data@.skip(i as int)) {
                Some(t) => Some(out.deep_view() + t),
                None => None::<Seq<Seq<char>>>,
            }),
        decreases len - i,
    {
        let word: &[u8] = slice_subrange(data, i, i + 4);
        let n32: u32 = u32_from_le_bytes(word);
        proof {
            let pre = data@.skip(i as int);
            assert(pre.take(4) =~= data@.subrange(i as int, i + 4));
        }
        if n32 as u64 > (len - (i + 4)) as u64 {
            return Err(DbError::CorruptData);
        }
        let n: usize = n32 as usize;
        let chunk: &[u8] = slice_subrange(data, i + 4, i + 4 + n);
        proof {
            let pre = data@.skip(i as int);
            assert(pre.subrange(4, 4 + n as int) =~= data@.subrange(i + 4, i + 4 + n as int));
        }
        let st: &str = match str_from_utf8_bytes(chunk) {
            Some(st) => st,
            None => {
                return Err(DbError::CorruptData);
            },
        };
        proof {
            let pre = data@.skip(i as int);
            assert(pre.skip(4 + n as int) =~= data@.skip(i + 4 + n as int));
            let ghost prev = out.deep_view();
            match decoded_strs(data@.skip(i + 4 + n as int)) {
                Some(t) => {
                    assert(prev + (seq![st@] + t) =~= prev.push(st@) + t);
                },
                None => {},
            }
        }
        let owned: String = st.to_owned();
        let ghost prev = out.deep_view();
        out.push(owned);
        proof {
            assert(out.deep_view() =~= prev.push(st@));
        }
        i = i + 4 + n;
    }
    proof {
        assert(data@.skip(i as int).len() < 4);
        assert(out.deep_view() + Seq::<Seq<char>>::empty() =~= out.deep_view());
    }
    Ok(out)
}

/// Decodes a whole data file of the given column type into values.
pub fn decode_values(t: DataType, data: &[u8]) -> (r: Result<Vec<Value>, DbError>)
    ensures
        r matches Ok(out) ==> decoded_values(t, data@) == Some(out.deep_view()),
        r is Err ==> r == Err::<Vec<Value>, DbError>(DbError::CorruptData) && decoded_values(
            t,
            data@,
        ) is None,
{
    match t {
        DataType::Int32 => {
            let ints: Vec<i32> = decode_int_column(data);
            let mut out: Vec<Value> = Vec::new();
            let mut k: usize = 0;
            while k < ints.len()
                invariant
                    k <= ints@.len(),
                    out@.len() == k,
                    forall|j: int| 0 <= j < k as int ==> out@[j] == Value::Int(ints@[j]),
                decreases ints@.len() - k,
            {
                out.push(Value::Int(ints[k]));
                k = k + 1;
            }
            proof {
                assert(out.deep_view() =~= decoded_ints(data@).map_values(
                    |x: i32| ValueModel::Int(x),
                ));
            }
            Ok(out)
        },
        DataType::Utf8String => {
            let strs: Vec<String> = match decode_str_column(data) {
                Ok(ss) => ss,
                Err(e) => {
                    return Err(e);
                },
            };
            let mut out: Vec<Value> = Vec::new();
            let mut k: usize = 0;
            while k < strs.len()
                invariant
                    k <= strs@.len(),
                    out@.len() == k,
                    forall|j: int| 0 <= j < k as int ==> #[trigger] out@[j]@ == ValueModel::Str(
                        strs@[j]@,
                    ),
                decreases strs@.len() - k,
            {
                let s: String = strs[k].clone();
                out.push(Value::Str(s));
                k = k + 1;
            }
            proof {
                assert(out.deep_view() =~= strs.deep_view().map_values(
                    |s: Seq<char>| ValueModel::Str(s),
                ));
            }
            Ok(out)
        },
    }
}

/// Converts a value to its textual form: the decimal string of an integer,
/// or the string itself.
pub fn value_to_string(v: &Value) -> (r: String)
    ensures
        r@ == value_form(v@),
{
    match v {
        Value::Int(x) => i32_to_decimal(*x),
        Value::Str(s) => s.clone(),
    }
}

/// Decoding an `Int32` file starts with the value its first 4 bytes encode.
pub proof fn lemma_decode_ints_prepend(x: i32, rest: Seq<u8>)
    ensures
        decoded_ints(int_bytes(x) + rest) == seq![x] + decoded_ints(rest),
{
    lemma_auto_spec_u32_to_from_le_bytes();
    let data = int_bytes(x) + rest;
    assert(data.take(4) =~= int_bytes(x));
    assert(data.skip(4) =~= rest);
    assert((x as u32) as i32 == x) by (bit_vector);
    assert(decoded_ints(data) =~= seq![x] + decoded_ints(rest));
}

/// Decoding a `Utf8String` file starts with the string its first chunk
/// encodes.
pub proof fn lemma_decode_strs_prepend(s: Seq<char>, rest: Seq<u8>)
    requires
        encode_utf8(s).len() <= u32::MAX,
    ensures
        decoded_strs(str_bytes(s) + rest) == (match decoded_strs(rest) {
            Some(t) => Some(seq![s] + t),
            None => None::<Seq<Seq<char>>>,
        }),
{
    lemma_auto_spec_u32_to_from_le_bytes();
    broadcast use encode_utf8_valid_utf8;
    broadcast use encode_utf8_decode_utf8;

    let eb = encode_utf8(s);
    let n = eb.len() as int;
    let data = str_bytes(s) + rest;
    assert(data.take(4) =~= spec_u32_to_le_bytes(n as u32));
    assert(spec_u32_from_le_bytes(data.take(4)) == n as u32);
    assert(data.subrange(4, 4 + n) =~= eb);
    assert(data.skip(4 + n) =~= rest);
    assert(valid_utf8(eb));
    assert(decode_utf8(eb) == s);
}

/// Prepending one well-formed value's bytes to a data file prepends exactly
/// that value to what the file decodes to.
pub proof fn lemma_decode_values_prepend(t: DataType, m: ValueModel, rest: Seq<u8>)
    requires
        value_wf(m, t),
    ensures
        decoded_values(t, value_bytes(m) + rest) == (match decoded_values(t, rest) {
            Some(vs) => Some(seq![m] + vs),
            None => None::<Seq<ValueModel>>,
        }),
{
    match m {
        ValueModel::Int(x) => {
            lemma_decode_ints_prepend(x, rest);
            assert((seq![x] + decoded_ints(rest)).map_values(|y: i32| ValueModel::Int(y)) =~= seq![
                ValueModel::Int(x),
            ] + decoded_ints(rest).map_values(|y: i32| ValueModel::Int(y)));
        },
        ValueModel::Str(s) => {
            lemma_decode_strs_prepend(s, rest);
            match decoded_strs(rest) {
                Some(t2) => {
                    assert((seq![s] + t2).map_values(|c: Seq<char>| ValueModel::Str(c)) =~= seq![
                        ValueModel::Str(s),
                    ] + t2.map_values(|c: Seq<char>| ValueModel::Str(c)));
                },
                None => {},
            }
        },
    }
}

/// Encoding round-trip: decoding the encoding of any supported value yields
/// exactly that value.
pub proof fn lemma_encode_decode_round_trip(t: DataType, m: ValueModel)
    requires
        value_wf(m, t),
    ensures
        decoded_values(t, value_bytes(m)) == Some(seq![m]),
{
    lemma_decode_values_prepend(t, m, Seq::<u8>::empty());
    assert(value_bytes(m) + Seq::<u8>::empty() =~= value_bytes(m));
    assert(decoded_ints(Seq::<u8>::empty()) == Seq::<i32>::empty());
    assert(decoded_strs(Seq::<u8>::empty()) == Some(Seq::<Seq<char>>::empty()));
    match t {
        DataType::Int32 => {
            assert(Seq::<i32>::empty().map_values(|y: i32| ValueModel::Int(y))
                =~= Seq::<ValueModel>::empty());
            assert(seq![m] + Seq::<ValueModel>::empty() =~= seq![m]);
        },
        DataType::Utf8String => {
            assert(Seq::<Seq<char>>::empty().map_values(|c: Seq<char>| ValueModel::Str(c))
                =~= Seq::<ValueModel>::empty());
            assert(seq![m] + Seq::<ValueModel>::empty() =~= seq![m]);
        },
    }
}

} // verus!
