//! A minimal columnar storage engine: append-only binary column files, a
//! per-column zone index for pruning, and vectorized predicate kernels.
mod codec;
mod decimal;
mod errors;
mod order;
mod schema;
mod simd;
mod store;

pub use codec::Value;
pub use codec::ValueModel;
pub use codec::decode_values;
pub use codec::decoded_values;
pub use codec::lemma_encode_decode_round_trip;
pub use codec::value_bytes;
pub use codec::value_form;
pub use codec::value_to_string;
pub use codec::value_wf;
pub use decimal::dec_chars;
pub use decimal::decimal_to_i32;
pub use decimal::i32_to_decimal;
pub use decimal::parse_i32;
pub use errors::DbError;
pub use order::lemma_lex_lt_irreflexive;
pub use order::lex_lt;
pub use order::str_lex_lt;
pub use schema::Column;
pub use schema::DataType;
pub use schema::TableSchema;
pub use schema::parse_column;
pub use simd::LaneWidth;
pub use simd::LogicalOp;
pub use simd::SimdOp;
pub use simd::combine_masks;
pub use simd::filter_scalar_32;
pub use simd::filter_simd_32;
pub use simd::filter_simd_32_wide;
pub use simd::filter_simd_dispatch;
pub use simd::filter_with_logical_op;
pub use simd::lemma_kernel_scalar_equivalence;
pub use simd::lemma_matching_indices_elems;
pub use simd::matching_indices;
pub use simd::op_matches;
pub use store::ColumnStore;
pub use store::ColumnWrite;
pub use store::IndexRecordModel;
pub use store::MinMaxIndex;
pub use store::all_equal;
pub use store::column_data_after;
pub use store::column_index_after;
pub use store::column_index_of;
pub use store::column_write_ok;
pub use store::count_matches;
pub use store::filter_emission;
pub use store::lemma_decode_column_data;
pub use store::lemma_pruning_sound;
pub use store::lemma_zone_index_cardinality;
pub use store::matches_forms;
pub use store::parse_value;
pub use store::record_for;
pub use store::tail_values;
pub use store::zone_check;
pub use store::zone_records;
pub use store::zone_survives;
