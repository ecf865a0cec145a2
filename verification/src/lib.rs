//! A mergeable, bounded-memory quantile sketch.
//!
//! A stream of observations is bucketed by a logarithmic index mapping and
//! counted in a dense store whose memory is bounded by collapsing the
//! lowest buckets.  Sketches persist and merge through a self-describing,
//! flag-tagged, variable-length binary format.
//!
//! Counts are modelled as natural numbers; the floating-point side of the
//! index mapping (logarithms and bucket representatives) lives outside this
//! verified core, which works on bucket indices, counts and wire bytes.
//! The wire format writes counts as doubles: this crate emits and accepts
//! exactly the integer ones up to `MAX_WIRE_COUNT`, so streams from
//! producers of fractional or larger counts are rejected rather than
//! rounded.

mod buffer;
mod error;
mod flag;
mod index_mapping;
mod sketch;
mod store;
mod varenc;

pub use buffer::le8;
pub use buffer::le8_at;
pub use buffer::lemma_le8_inverse;
pub use buffer::le8_value;
pub use buffer::Input;
pub use buffer::Output;
pub use error::Error;
pub use error::IoErrorKind;
pub use flag::Flag;
pub use flag::FlagType;
pub use index_mapping::mapping_bytes;
pub use index_mapping::IndexMapping;
pub use index_mapping::IndexMappingLayout;
pub use sketch::clickhouse_bytes;
pub use sketch::count_field_bytes;
pub use sketch::encodable;
pub use sketch::sketch_bytes;
pub use sketch::summary_bytes;
pub use sketch::zero_field_bytes;
pub use sketch::decoded_count;
pub use sketch::parse_sketch;
pub use sketch::start_fields;
pub use sketch::SketchFields;
pub use sketch::DDSketch;
pub use sketch::DecodedSummary;
pub use sketch::QuantileBucket;
pub use sketch::FEATURE_COUNT;
pub use sketch::FEATURE_MAX;
pub use sketch::FEATURE_MIN;
pub use sketch::FEATURE_SUM;
pub use sketch::FEATURE_ZERO_COUNT;
pub use store::ascending_bucket;
pub use store::bins_total;
pub use store::cat_dense_counts;
pub use store::cat_sparse_bins;
pub use store::dense_body;
pub use store::descending_bins;
pub use store::descending_bucket;
pub use store::lemma_dense_body_round_trip;
pub use store::lemma_sparse_body_round_trip;
pub use store::lemma_empty_total;
pub use store::lemma_empty_store_counts;
pub use store::lemma_add_model;
pub use store::spec_add;
pub use store::fold_add;
pub use store::sum_model;
pub use store::StoreModel;
pub use store::ascending_bins;
pub use store::dense_bins;
pub use varenc::ParseFail;
pub use store::next_nonzero_down;
pub use store::next_nonzero_up;
pub use store::nonzero_bins;
pub use store::parse_bins;
pub use store::parse_store_body;
pub use store::sparse_body;
pub use store::store_bytes;
pub use store::BinEncodingMode;
pub use store::CollapsingLowestDenseStore;
pub use store::StoreIter;
pub use varenc::bit_len;
pub use varenc::count_of_dbl_bits;
pub use varenc::dbl_bits;
pub use varenc::decode_signed_var_long;
pub use varenc::decode_unsigned_var_long;
pub use varenc::decode_var_double_count;
pub use varenc::encode_signed_var_long;
pub use varenc::encode_unsigned_var_long;
pub use varenc::encode_var_double_count;
pub use varenc::i64_to_i32_exact;
pub use varenc::lemma_svar_round_trip;
pub use varenc::lemma_unzigzag;
pub use varenc::lemma_uvar_round_trip;
pub use varenc::lemma_vd_count_round_trip;
pub use varenc::parse_uvar;
pub use varenc::parse_vd_count;
pub use varenc::parse_vd_word;
pub use varenc::rot6l;
pub use varenc::rot6r;
pub use varenc::svar_bytes;
pub use varenc::unzigzag;
pub use varenc::uvar_bytes;
pub use varenc::vd_bytes;
pub use varenc::vd_group_bytes;
pub use varenc::vd_word;
pub use varenc::zigzag;
pub use varenc::DBL_ONE_BITS;
pub use varenc::MAX_WIRE_COUNT;
