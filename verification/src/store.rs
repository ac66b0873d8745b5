//! The column store: append, scan, and indexed-predicate filtering.
//!
//! One data file and one zone-index file exist per (table, column) pair. An
//! insert appends each value's encoding to its column's data file and exactly
//! one zone-index record — covering just that value, at the pre-append byte
//! offset — to the index file. A filter streams the index records, skips a
//! record when the predicate text falls strictly outside its bounds under
//! lexicographic ordering, and scans the data file from each surviving
//! record's offset to end-of-file, so overlapping zones can re-emit matches;
//! pruning may over-return but never under-return.
//!
//! The file I/O itself lives with the caller: these operations take the file
//! contents as byte and record sequences and say exactly what the outcome is.
use crate::codec::Value;
use crate::codec::ValueModel;
use crate::codec::decode_int_column;
use crate::codec::decode_values;
use crate::codec::decoded_ints;
use crate::codec::decoded_values;
use crate::codec::encode_int_value;
use crate::codec::encode_str_value;
use crate::codec::lemma_decode_values_prepend;
use crate::codec::value_bytes;
use crate::codec::value_form;
use crate::codec::value_to_string;
use crate::codec::value_wf;
use crate::decimal::decimal_to_i32;
use crate::decimal::i32_to_decimal;
use crate::decimal::parse_i32;
use crate::errors::DbError;
use crate::order::lemma_lex_lt_irreflexive;
use crate::order::lex_lt;
use crate::order::str_lex_lt;
use crate::schema::Column;
use crate::schema::DataType;
use crate::schema::TableSchema;
use crate::simd::LaneWidth;
use crate::simd::LogicalOp;
use crate::simd::SimdOp;
use crate::simd::filter_simd_dispatch;
use crate::simd::filter_with_logical_op;
use crate::simd::matching_indices;
use vstd::prelude::*;
use vstd::slice::slice_subrange;
use vstd::string::StringExecFns;
use vstd::utf8::encode_utf8;

verus! {

/// One zone-index record: the byte offset in the data file at which the
/// summarized value begins, and the textual bounds of the value(s) covered.
/// Every insert writes one record whose bounds both equal the inserted
/// value's form.
#[derive(Debug)]
pub struct MinMaxIndex {
    pub chunk_offset: u64,
    pub min_value: String,
    pub max_value: String,
}

/// The mathematical model of a zone-index record.
pub struct IndexRecordModel {
    pub chunk_offset: int,
    pub min_value: Seq<char>,
    pub max_value: Seq<char>,
}

impl View for MinMaxIndex {
    type V = IndexRecordModel;

    open spec fn view(&self) -> IndexRecordModel {
        IndexRecordModel {
            chunk_offset: self.chunk_offset as int,
            min_value: self.min_value@,
            max_value: self.max_value@,
        }
    }
}

impl DeepView for MinMaxIndex {
    type V = IndexRecordModel;

    open spec fn deep_view(&self) -> IndexRecordModel {
        self.view()
    }
}

/// What one insert appends for one column: the encoded value for the data
/// file and the zone-index record for the index file.
#[derive(Debug)]
pub struct ColumnWrite {
    pub data_bytes: Vec<u8>,
    pub index_entry: MinMaxIndex,
}

/// The column store itself holds only the directory its files live under;
/// all state is on disk, re-read by every operation.
#[derive(Debug)]
pub struct ColumnStore {
    pub base_path: String,
}

/// Index of the first column named `name`, or `cols.len()` if there is none.
pub open spec fn column_index_of(cols: Seq<Column>, name: Seq<char>) -> int
    decreases cols.len(),
{
    if cols.len() == 0 {
        0
    } else if cols.first().name@ == name {
        0
    } else {
        1 + column_index_of(cols.drop_first(), name)
    }
}

proof fn lemma_column_index_at(cols: Seq<Column>, name: Seq<char>, i: int)
    requires
        0 <= i <= cols.len(),
        forall|k: int| 0 <= k < i ==> (#[trigger] cols[k].name@) != name,
        i < cols.len() ==> cols[i].name@ == name,
    ensures
        column_index_of(cols, name) == i,
    decreases cols.len(),
{
    if cols.len() > 0 && cols.first().name@ != name {
        assert(cols[0].name@ != name);
        assert forall|k: int| 0 <= k < i - 1 implies (#[trigger] cols.drop_first()[k].name@)
            != name by {
            assert(cols.drop_first()[k] == cols[k + 1]);
        }
        lemma_column_index_at(cols.drop_first(), name, i - 1);
    }
}

/// Finds the first column of the schema with the given name.
fn find_column(table: &TableSchema, column_name: &str) -> (r: Option<usize>)
    ensures
        r matches Some(k) ==> k as int == column_index_of(table.columns@, column_name@) && (
        k as int) < table.columns@.len(),
        r is None ==> column_index_of(table.columns@, column_name@) == table.columns@.len(),
{
    let target: String = column_name.to_owned();
    let n: usize = table.columns.len();
    let mut k: usize = 0;
    while k < n
        invariant
            k <= n,
            n == table.columns@.len(),
            target@ == column_name@,
            forall|j: int| 0 <= j < k as int ==> (#[trigger] table.columns@[j].name@)
                != column_name@,
        decreases n - k,
    {
        if table.columns[k].name == target {
            proof {
                lemma_column_index_at(table.columns@, column_name@, k as int);
            }
            return Some(k);
        }
        k = k + 1;
    }
    proof {
        lemma_column_index_at(table.columns@, column_name@, n as int);
    }
    None
}

/// The value a piece of text denotes in a column of the given type: for
/// `Int32` the parsed integer, for `Utf8String` the text itself as long as
/// its byte length fits the length prefix.
pub open spec fn parse_value(t: DataType, s: Seq<char>) -> Option<ValueModel> {
    match t {
        DataType::Int32 => match parse_i32(s) {
            Some(x) => Some(ValueModel::Int(x)),
            None => None,
        },
        DataType::Utf8String => if encode_utf8(s).len() <= u32::MAX {
            Some(ValueModel::Str(s))
        } else {
            None
        },
    }
}

/// What `insert_row` owes for one column: the encoded value, and one
/// zone-index record at the pre-append offset whose bounds both equal the
/// inserted value's textual form.
pub open spec fn column_write_ok(w: ColumnWrite, t: DataType, s: Seq<char>, offset: u64) -> bool {
    &&& parse_value(t, s) is Some
    &&& w.data_bytes@ == value_bytes(parse_value(t, s).unwrap())
    &&& w.index_entry@.chunk_offset == offset as int
    &&& w.index_entry@.min_value == value_form(parse_value(t, s).unwrap())
    &&& w.index_entry@.max_value == value_form(parse_value(t, s).unwrap())
}

/// A record survives pruning when the predicate text does not fall strictly
/// outside its `[min, max]` bounds, lexicographically.
pub open spec fn zone_survives(rec: IndexRecordModel, p: Seq<char>) -> bool {
    !lex_lt(p, rec.min_value) && !lex_lt(rec.max_value, p)
}

/// The pruning test on one record, exactly as `zone_survives` states it.
pub fn zone_check(rec: &MinMaxIndex, predicate: &str) -> (r: bool)
    ensures
        r == zone_survives(rec@, predicate@),
{
    !str_lex_lt(predicate, rec.min_value.as_str()) && !str_lex_lt(rec.max_value.as_str(), predicate)
}

/// The values a scan reads when it seeks to `off` and decodes forward to
/// end-of-file; seeking past the end reads nothing.
pub open spec fn tail_values(t: DataType, data: Seq<u8>, off: int) -> Option<Seq<ValueModel>> {
    if off < 0 || off > data.len() {
        Some(seq![])
    } else {
        decoded_values(t, data.skip(off))
    }
}

/// The predicate an equality filter applies to each stored value: its
/// textual form equals the predicate text.
pub open spec fn form_matches(p: Seq<char>) -> spec_fn(ValueModel) -> bool {
    |m: ValueModel| value_form(m) == p
}

/// The textual forms, in order, of the values among `vs` whose form equals
/// the predicate.
pub open spec fn matches_forms(vs: Seq<ValueModel>, p: Seq<char>) -> Seq<Seq<char>> {
    vs.filter(form_matches(p)).map_values(|m: ValueModel| value_form(m))
}

/// How many stored values have the predicate's form.
pub open spec fn count_matches(vs: Seq<ValueModel>, p: Seq<char>) -> nat {
    vs.filter(form_matches(p)).len()
}

/// Everything a filter returned, record by record: each surviving record
/// contributes the matches of a scan from its offset to end-of-file. `None`
/// marks corrupt data reached by some surviving record's scan.
pub open spec fn filter_emission(
    t: DataType,
    recs: Seq<IndexRecordModel>,
    data: Seq<u8>,
    p: Seq<char>,
) -> Option<Seq<Seq<char>>>
    decreases recs.len(),
{
    if recs.len() == 0 {
        Some(seq![])
    } else {
        let rest = filter_emission(t, recs.drop_first(), data, p);
        if !zone_survives(recs.first(), p) {
            rest
        } else {
            match tail_values(t, data, recs.first().chunk_offset) {
                None => None,
                Some(vs) => match rest {
                    None => None,
                    Some(r) => Some(matches_forms(vs, p) + r),
                },
            }
        }
    }
}

/// The data file contents after the given values were inserted in order.
pub open spec fn column_data_after(vals: Seq<ValueModel>) -> Seq<u8>
    decreases vals.len(),
{
    if vals.len() == 0 {
        seq![]
    } else {
        value_bytes(vals.first()) + column_data_after(vals.drop_first())
    }
}

/// The zone-index records for the given values, the first of which begins at
/// byte offset `base` of the data file.
pub open spec fn zone_records(vals: Seq<ValueModel>, base: int) -> Seq<IndexRecordModel>
    decreases vals.len(),
{
    if vals.len() == 0 {
        seq![]
    } else {
        seq![
            IndexRecordModel {
                chunk_offset: base,
                min_value: value_form(vals.first()),
                max_value: value_form(vals.first()),
            },
        ] + zone_records(vals.drop_first(), base + value_bytes(vals.first()).len())
    }
}

/// The zone-index file contents after the given values were inserted in
/// order.
pub open spec fn column_index_after(vals: Seq<ValueModel>) -> Seq<IndexRecordModel> {
    zone_records(vals, 0)
}

/// The record one insert writes for the value at position `k`: bounds both
/// equal to the value's form, offset where its encoding begins.
pub open spec fn record_for(vals: Seq<ValueModel>, base: int, k: int) -> IndexRecordModel {
    IndexRecordModel {
        chunk_offset: base + column_data_after(vals.take(k)).len(),
        min_value: value_form(vals[k]),
        max_value: value_form(vals[k]),
    }
}

proof fn lemma_zone_records_shape(vals: Seq<ValueModel>, base: int)
    ensures
        zone_records(vals, base).len() == vals.len(),
        forall|k: int|
            0 <= k < vals.len() ==> #[trigger] zone_records(vals, base)[k] == record_for(
                vals,
                base,
                k,
            ),
    decreases vals.len(),
{
    if vals.len() > 0 {
        let rest = vals.drop_first();
        let b0 = value_bytes(vals.first());
        lemma_zone_records_shape(rest, base + b0.len());
        assert forall|k: int|
            0 <= k < vals.len() implies #[trigger] zone_records(vals, base)[k] == record_for(
            vals,
            base,
            k,
        ) by {
            if k == 0 {
                assert(vals.take(0) =~= Seq::<ValueModel>::empty());
                assert(column_data_after(vals.take(0)).len() == 0);
            } else {
                assert(zone_records(vals, base)[k] == zone_records(rest, base + b0.len())[k - 1]);
                assert(rest.take(k - 1) =~= vals.take(k).drop_first());
                assert(vals.take(k).first() == vals.first());
                assert(column_data_after(vals.take(k)) == b0 + column_data_after(rest.take(k - 1)));
                assert(rest[k - 1] == vals[k]);
            }
        }
    }
}

/// Zone-index cardinality: after N inserts into a column its index file has
/// exactly N records, the k-th summarizing exactly the k-th inserted value —
/// both bounds equal to that value's form — at the byte offset where that
/// value's encoding begins.
pub proof fn lemma_zone_index_cardinality(vals: Seq<ValueModel>)
    ensures
        column_index_after(vals).len() == vals.len(),
        forall|k: int|
            0 <= k < vals.len() ==> #[trigger] column_index_after(vals)[k] == record_for(
                vals,
                0,
                k,
            ),
{
    lemma_zone_records_shape(vals, 0);
}

/// Decoding the data file written by a sequence of inserts yields exactly
/// the inserted values.
pub proof fn lemma_decode_column_data(t: DataType, vals: Seq<ValueModel>)
    requires
        forall|k: int| 0 <= k < vals.len() ==> value_wf(#[trigger] vals[k], t),
    ensures
        decoded_values(t, column_data_after(vals)) == Some(vals),
    decreases vals.len(),
{
    if vals.len() == 0 {
        assert(column_data_after(vals) =~= Seq::<u8>::empty());
        match t {
            DataType::Int32 => {
                assert(decoded_ints(Seq::<u8>::empty()) == Seq::<i32>::empty());
                assert(Seq::<i32>::empty().map_values(|x: i32| ValueModel::Int(x)) =~= vals);
            },
            DataType::Utf8String => {
                assert(Seq::<Seq<char>>::empty().map_values(|s: Seq<char>| ValueModel::Str(s))
                    =~= vals);
            },
        }
    } else {
        let rest = vals.drop_first();
        assert forall|k: int| 0 <= k < rest.len() implies value_wf(#[trigger] rest[k], t) by {
            assert(rest[k] == vals[k + 1]);
        }
        lemma_decode_column_data(t, rest);
        lemma_decode_values_prepend(t, vals.first(), column_data_after(rest));
        assert(seq![vals.first()] + rest =~= vals);
    }
}

/// All entries of an emission equal the predicate text.
pub open spec fn all_equal(em: Seq<Seq<char>>, p: Seq<char>) -> bool {
    forall|i: int| 0 <= i < em.len() ==> #[trigger] em[i] == p
}

proof fn lemma_emission_complete(
    t: DataType,
    vals: Seq<ValueModel>,
    p: Seq<char>,
    base: int,
    data: Seq<u8>,
)
    requires
        forall|k: int| 0 <= k < vals.len() ==> value_wf(#[trigger] vals[k], t),
        0 <= base <= data.len(),
        data.skip(base) == column_data_after(vals),
    ensures
        filter_emission(t, zone_records(vals, base), data, p) is Some,
        filter_emission(t, zone_records(vals, base), data, p).unwrap().len() >= count_matches(
            vals,
            p,
        ),
        all_equal(filter_emission(t, zone_records(vals, base), data, p).unwrap(), p),
    decreases vals.len(),
{
    broadcast use vstd::seq_lib::group_seq_properties;

    reveal(Seq::filter);
    let pred = form_matches(p);
    if vals.len() == 0 {
        assert(vals.filter(pred) =~= Seq::<ValueModel>::empty());
    } else {
        let v0 = vals.first();
        let rest = vals.drop_first();
        let b0 = value_bytes(v0);
        let base2 = base + b0.len();
        assert forall|k: int| 0 <= k < rest.len() implies value_wf(#[trigger] rest[k], t) by {
            assert(rest[k] == vals[k + 1]);
        }
        assert(data.skip(base).len() == b0.len() + column_data_after(rest).len());
        assert(base2 <= data.len());
        assert(data.skip(base2) =~= data.skip(base).skip(b0.len() as int));
        assert(data.skip(base).skip(b0.len() as int) =~= column_data_after(rest));
        lemma_emission_complete(t, rest, p, base2, data);

        let recs = zone_records(vals, base);
        let rec0 = recs.first();
        assert(recs.drop_first() =~= zone_records(rest, base2));
        let em_rest = filter_emission(t, zone_records(rest, base2), data, p).unwrap();

        assert(seq![v0] + rest =~= vals);
        assert(vals.filter(pred) == (seq![v0] + rest).filter(pred));
        Seq::<ValueModel>::filter_distributes_over_add(seq![v0], rest, pred);
        assert(count_matches(vals, p) == count_matches(seq![v0], p) + count_matches(rest, p));
        assert(seq![v0].drop_last() =~= Seq::<ValueModel>::empty());
        assert(Seq::<ValueModel>::empty().filter(pred) =~= Seq::<ValueModel>::empty());

        if !zone_survives(rec0, p) {
            if value_form(v0) == p {
                lemma_lex_lt_irreflexive(p);
                assert(false);
            }
            assert(count_matches(seq![v0], p) == 0);
            assert(filter_emission(t, recs, data, p) == filter_emission(
                t,
                zone_records(rest, base2),
                data,
                p,
            ));
        } else {
            lemma_decode_column_data(t, vals);
            assert(tail_values(t, data, base) == Some(vals));
            let mf = matches_forms(vals, p);
            assert(mf.len() == count_matches(vals, p));
            assert(filter_emission(t, recs, data, p) == Some(mf + em_rest));
            assert forall|i: int| 0 <= i < (mf + em_rest).len() implies #[trigger] (mf
                + em_rest)[i] == p by {
                if i < mf.len() {
                    assert(mf[i] == value_form(vals.filter(pred)[i]));
                    vals.lemma_filter_pred(pred, i);
                } else {
                    assert((mf + em_rest)[i] == em_rest[i - mf.len()]);
                }
            }
        }
    }
}

/// Pruning soundness: filtering never misses a true match. Over the column
/// state left by any sequence of inserts, index-pruned filtering succeeds,
/// every returned entry equals the predicate text, and at least one entry is
/// returned per stored value whose form equals the predicate — reading each
/// surviving zone to end-of-file may over-return, but never under-return.
pub proof fn lemma_pruning_sound(t: DataType, vals: Seq<ValueModel>, p: Seq<char>)
    requires
        forall|k: int| 0 <= k < vals.len() ==> value_wf(#[trigger] vals[k], t),
    ensures
        filter_emission(t, column_index_after(vals), column_data_after(vals), p) is Some,
        filter_emission(t, column_index_after(vals), column_data_after(vals), p).unwrap().len()
            >= count_matches(vals, p),
        all_equal(
            filter_emission(t, column_index_after(vals), column_data_after(vals), p).unwrap(),
            p,
        ),
{
    assert(column_data_after(vals).skip(0) =~= column_data_after(vals));
    lemma_emission_complete(t, vals, p, 0, column_data_after(vals));
}

impl ColumnStore {
    /// Remembers the directory every column file lives under. Creating the
    /// directory on disk is the caller's side of the boundary.
    pub fn new(base_path: &str) -> (r: ColumnStore)
        ensures
            r.base_path@ == base_path@,
    {
        ColumnStore { base_path: base_path.to_owned() }
    }

    /// The path of a column's data file:
    /// `<base_path>/<table_name>_<column_name>.data`.
    pub fn data_path(&self, table_name: &str, column_name: &str) -> (r: String)
        ensures
            r@ == self.base_path@ + "/"@ + table_name@ + "_"@ + column_name@ + ".data"@,
    {
        let mut p: String = self.base_path.clone();
        p.append("/");
        p.append(table_name);
        p.append("_");
        p.append(column_name);
        p.append(".data");
        p
    }

    /// The path of a column's zone-index file:
    /// `<base_path>/<table_name>_<column_name>.idx`.
    pub fn index_path(&self, table_name: &str, column_name: &str) -> (r: String)
        ensures
            r@ == self.base_path@ + "/"@ + table_name@ + "_"@ + column_name@ + ".idx"@,
    {
        let mut p: String = self.base_path.clone();
        p.append("/");
        p.append(table_name);
        p.append("_");
        p.append(column_name);
        p.append(".idx");
        p
    }

    /// Plans one row insert: values are positionally aligned with the
    /// schema's columns, and `data_sizes[i]` is the current byte length of
    /// column i's data file — the offset the new value will begin at. For
    /// each column the result holds the encoded bytes to append and the one
    /// zone-index record to append, whose bounds both equal the value's
    /// textual form. A value that does not fit its column's declared type
    /// fails with `TypeMismatch` naming the first such column.
    pub fn insert_row(
        &self,
        table: &TableSchema,
        values: &Vec<String>,
        data_sizes: &Vec<u64>,
    ) -> (r: Result<Vec<ColumnWrite>, DbError>)
        requires
            values@.len() == table.columns@.len(),
            data_sizes@.len() == table.columns@.len(),
        ensures
            r matches Ok(ws) ==> ws@.len() == table.columns@.len() && (forall|i: int|
                0 <= i < ws@.len() ==> column_write_ok(
                    #[trigger] ws@[i],
                    table.columns@[i].data_type,
                    values@[i]@,
                    data_sizes@[i],
                )),
            r matches Err(e) ==> (exists|i: int|
                0 <= i < table.columns@.len() && e == DbError::TypeMismatch { column: i as usize }
                    && parse_value(#[trigger] table.columns@[i].data_type, values@[i]@) is None),
            (forall|i: int|
                0 <= i < table.columns@.len() ==> parse_value(
                    #[trigger] table.columns@[i].data_type,
                    values@[i]@,
                ) is Some) ==> r is Ok,
    {
        let n: usize = table.columns.len();
        let mut writes: Vec<ColumnWrite> = Vec::new();
        let mut i: usize = 0;
        while i < n
            invariant
                i <= n,
                n == table.columns@.len(),
                values@.len() == n,
                data_sizes@.len() == n,
                writes@.len() == i,
                forall|j: int|
                    0 <= j < i as int ==> column_write_ok(
                        #[trigger] writes@[j],
                        table.columns@[j].data_type,
                        values@[j]@,
                        data_sizes@[j],
                    ),
            decreases n - i,
        {
            let column: &Column = &table.columns[i];
            let offset: u64 = data_sizes[i];
            match column.data_type {
                DataType::Int32 => {
                    let parsed: Option<i32> = decimal_to_i32(values[i].as_str());
                    match parsed {
                        None => {
                            return Err(DbError::TypeMismatch { column: i });
                        },
                        Some(x) => {
                            let form: String = i32_to_decimal(x);
                            let max_form: String = form.clone();
                            writes.push(
                                ColumnWrite {
                                    data_bytes: encode_int_value(x),
                                    index_entry: MinMaxIndex {
                                        chunk_offset: offset,
                                        min_value: form,
                                        max_value: max_form,
                                    },
                                },
                            );
                        },
                    }
                },
                DataType::Utf8String => {
                    let s: &String = &values[i];
                    let encoded: Vec<u8> = match encode_str_value(s.as_str()) {
                        Some(bytes) => bytes,
                        None => {
                            return Err(DbError::TypeMismatch { column: i });
                        },
                    };
                    let min_form: String = s.clone();
                    let max_form: String = s.clone();
                    writes.push(
                        ColumnWrite {
                            data_bytes: encoded,
                            index_entry: MinMaxIndex {
                                chunk_offset: offset,
                                min_value: min_form,
                                max_value: max_form,
                            },
                        },
                    );
                },
            }
            i = i + 1;
        }
        Ok(writes)
    }

    /// Scans a whole column: decodes its data file front to back. Fails with
    /// `ColumnNotFound` when the schema declares no such column and
    /// `CorruptData` when the file does not decode.
    pub fn scan_column(&self, table: &TableSchema, column_name: &str, data: &[u8]) -> (r: Result<
        Vec<Value>,
        DbError,
    >)
        ensures
            ({
                let j = column_index_of(table.columns@, column_name@);
                &&& j == table.columns@.len() ==> r == Err::<Vec<Value>, DbError>(
                    DbError::ColumnNotFound,
                )
                &&& j < table.columns@.len() ==> (match decoded_values(
                    table.columns@[j].data_type,
                    data@,
                ) {
                    Some(vs) => r matches Ok(out) && out.deep_view() == vs,
                    None => r == Err::<Vec<Value>, DbError>(DbError::CorruptData),
                })
            }),
    {
        let k: usize = match find_column(table, column_name) {
            Some(k) => k,
            None => {
                return Err(DbError::ColumnNotFound);
            },
        };
        let t: DataType = table.columns[k].data_type;
        decode_values(t, data)
    }

    /// Filters a column by exact value, using the zone index to skip
    /// records whose bounds exclude the predicate text and scanning the data
    /// file from each surviving record's offset to end-of-file. Returns the
    /// textual form of every match each surviving scan sees — zones that
    /// overlap re-emit, per `filter_emission`.
    pub fn filter_column(
        &self,
        table: &TableSchema,
        column_name: &str,
        predicate: &str,
        index: &Vec<MinMaxIndex>,
        data: &[u8],
    ) -> (r: Result<Vec<String>, DbError>)
        ensures
            ({
                let j = column_index_of(table.columns@, column_name@);
                &&& j == table.columns@.len() ==> r == Err::<Vec<String>, DbError>(
                    DbError::ColumnNotFound,
                )
                &&& j < table.columns@.len() ==> (match filter_emission(
                    table.columns@[j].data_type,
                    index.deep_view(),
                    data@,
                    predicate@,
                ) {
                    Some(em) => r matches Ok(out) && out.deep_view() == em,
                    None => r == Err::<Vec<String>, DbError>(DbError::CorruptData),
                })
            }),
    {
        let k: usize = match find_column(table, column_name) {
            Some(k) => k,
            None => {
                return Err(DbError::ColumnNotFound);
            },
        };
        let t: DataType = table.columns[k].data_type;
        let pred_owned: String = predicate.to_owned();
        let ghost recs = index.deep_view();
        let mut out: Vec<String> = Vec::new();
        let n_recs: usize = index.len();
        let mut ri: usize = 0;
        proof {
            assert(recs.skip(0) =~= recs);
            match filter_emission(t, recs, data@, predicate@) {
                Some(em) => {
                    assert(out.deep_view() + em =~= em);
                },
                None => {},
            }
        }
        while ri < n_recs
            invariant
                ri <= n_recs,
                n_recs == recs.len(),
                recs == index.deep_view(),
                column_index_of(table.columns@, column_name@) < table.columns@.len(),
                t == table.columns@[column_index_of(table.columns@, column_name@)].data_type,
                pred_owned@ == predicate@,
                filter_emission(t, recs, data@, predicate@) == (match filter_emission(
                    t,
                    recs.skip(ri as int),
                    data@,
                    predicate@,
                ) {
                    Some(rest) => Some(out.deep_view() + rest),
                    None => None::<Seq<Seq<char>>>,
                }),
            decreases n_recs - ri,
        {
            let rec: &MinMaxIndex = &index[ri];
            proof {
                assert(recs.skip(ri as int).first() == rec@);
                assert(recs.skip(ri as int).drop_first() =~= recs.skip(ri + 1));
            }
            if zone_check(rec, predicate) {
                let off64: u64 = rec.chunk_offset;
                if off64 <= data.len() as u64 {
                    let off: usize = off64 as usize;
                    let sub: &[u8] = slice_subrange(data, off, data.len());
                    proof {
                        assert(sub@ =~= data@.skip(off as int));
                    }
                    let vals: Vec<Value> = match decode_values(t, sub) {
                        Ok(vs) => vs,
                        Err(_) => {
                            proof {
                                assert(tail_values(t, data@, rec@.chunk_offset) is None);
                                assert(filter_emission(t, recs.skip(ri as int), data@, predicate@)
                                    is None);
                            }
                            return Err(DbError::CorruptData);
                        },
                    };
                    let ghost vm = vals.deep_view();
                    let ghost prev_out = out.deep_view();
                    let n_vals: usize = vals.len();
                    let mut vi: usize = 0;
                    proof {
                        reveal(Seq::filter);
                        assert(vm.take(0) =~= Seq::<ValueModel>::empty());
                        assert(Seq::<ValueModel>::empty().filter(form_matches(predicate@))
                            =~= Seq::<ValueModel>::empty());
                        assert(matches_forms(vm.take(0), predicate@)
                            =~= Seq::<Seq<char>>::empty());
                        assert(prev_out + matches_forms(vm.take(0), predicate@) =~= prev_out);
                    }
                    while vi < n_vals
                        invariant
                            vi <= n_vals,
                            n_vals == vals@.len(),
                            vm == vals.deep_view(),
                            pred_owned@ == predicate@,
                            out.deep_view() == prev_out + matches_forms(
                                vm.take(vi as int),
                                predicate@,
                            ),
                        decreases n_vals - vi,
                    {
                        let form: String = value_to_string(&vals[vi]);
                        proof {
                            lemma_matches_forms_step(vm, predicate@, vi as int);
                            assert(vm[vi as int] == vals@[vi as int]@);
                        }
                        if form == pred_owned {
                            let ghost before = out.deep_view();
                            out.push(form);
                            proof {
                                assert(out.deep_view() =~= before.push(predicate@));
                                assert(prev_out + matches_forms(vm.take(vi as int), predicate@)
                                    + seq![predicate@] =~= prev_out + matches_forms(
                                    vm.take(vi + 1),
                                    predicate@,
                                ));
                            }
                        }
                        vi = vi + 1;
                    }
                    proof {
                        assert(vm.take(n_vals as int) =~= vm);
                        assert(tail_values(t, data@, rec@.chunk_offset) == Some(vm));
                        match filter_emission(t, recs.skip(ri + 1), data@, predicate@) {
                            Some(rest2) => {
                                assert(prev_out + (matches_forms(vm, predicate@) + rest2) =~= (
                                prev_out + matches_forms(vm, predicate@)) + rest2);
                            },
                            None => {},
                        }
                    }
                } else {
                    proof {
                        reveal(Seq::filter);
                        assert(tail_values(t, data@, rec@.chunk_offset) == Some(
                            Seq::<ValueModel>::empty(),
                        ));
                        assert(Seq::<ValueModel>::empty().filter(form_matches(predicate@))
                            =~= Seq::<ValueModel>::empty());
                        assert(matches_forms(Seq::<ValueModel>::empty(), predicate@)
                            =~= Seq::<Seq<char>>::empty());
                        match filter_emission(t, recs.skip(ri + 1), data@, predicate@) {
                            Some(rest2) => {
                                assert(matches_forms(Seq::<ValueModel>::empty(), predicate@)
                                    + rest2 =~= rest2);
                            },
                            None => {},
                        }
                    }
                }
            }
            ri = ri + 1;
        }
        proof {
            assert(recs.skip(n_recs as int).len() == 0);
            assert(out.deep_view() + Seq::<Seq<char>>::empty() =~= out.deep_view());
        }
        Ok(out)
    }

    /// Vectorized filter of an `Int32` column's data file: decodes the whole
    /// file into a buffer and runs the predicate kernel at the chosen lane
    /// width. Returns the decoded buffer and the matching positions.
    pub fn filter_column_simd(
        &self,
        data: &[u8],
        threshold_value: i32,
        op: SimdOp,
        width: LaneWidth,
    ) -> (r: (Vec<i32>, Vec<usize>))
        ensures
            r.0@ == decoded_ints(data@),
            r.1@ == matching_indices(r.0@, threshold_value, op),
    {
        let buffer: Vec<i32> = decode_int_column(data);
        let indices: Vec<usize> = filter_simd_dispatch(buffer.as_slice(), threshold_value, op, width);
        (buffer, indices)
    }

    /// Two-predicate vectorized filter over two positionally aligned
    /// columns: each predicate runs independently, then the position sets
    /// are intersected (`And`) or united (`Or`).
    pub fn filter_columns_logical_simd(
        &self,
        data1: &[u8],
        op1: SimdOp,
        val1: i32,
        data2: &[u8],
        op2: SimdOp,
        val2: i32,
        logic: LogicalOp,
    ) -> (r: Vec<usize>)
        ensures
            r@.to_set() == (match logic {
                LogicalOp::And => matching_indices(decoded_ints(data1@), val1, op1).to_set()
                    .intersect(matching_indices(decoded_ints(data2@), val2, op2).to_set()),
                LogicalOp::Or => matching_indices(decoded_ints(data1@), val1, op1).to_set().union(
                    matching_indices(decoded_ints(data2@), val2, op2).to_set(),
                ),
            }),
            r@.no_duplicates(),
    {
        let b1: Vec<i32> = decode_int_column(data1);
        let b2: Vec<i32> = decode_int_column(data2);
        filter_with_logical_op(b1.as_slice(), op1, val1, b2.as_slice(), op2, val2, logic)
    }
}

/// Filtering one more value appends its form exactly when it matches.
proof fn lemma_matches_forms_step(vs: Seq<ValueModel>, p: Seq<char>, l: int)
    requires
        0 <= l < vs.len(),
    ensures
        matches_forms(vs.take(l + 1), p) == (if value_form(vs[l]) == p {
            matches_forms(vs.take(l), p).push(p)
        } else {
            matches_forms(vs.take(l), p)
        }),
{
    reveal(Seq::filter);
    let pred = form_matches(p);
    let fmap = |m: ValueModel| value_form(m);
    let pre = vs.take(l);
    let post = vs.take(l + 1);
    assert(post.drop_last() =~= pre);
    assert(post.last() == vs[l]);
    if pred(vs[l]) {
        assert(post.filter(pred) == pre.filter(pred).push(vs[l]));
        assert(pre.filter(pred).push(vs[l]).map_values(fmap) =~= pre.filter(pred).map_values(
            fmap,
        ).push(p));
    } else {
        assert(post.filter(pred) == pre.filter(pred));
    }
}

} // verus!
