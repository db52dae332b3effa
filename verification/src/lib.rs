//! A distributed shard-and-aggregate engine: deterministic byte-range
//! partitioning of a newline-delimited record file across W workers,
//! record-boundary-safe scanning of each shard in bounded segments,
//! per-worker keyed sum tables, commutative cross-worker reduction, and
//! bounded top-K selection over the merged tables.
//!
//! Every record of the file is aggregated exactly once, whatever the
//! worker count: see the laws in [`engine`] and the merge laws in
//! [`table`] and [`entity`].

mod coordinator;
mod engine;
mod entity;
mod lines;
mod metric;
mod partition;
mod record;
mod report;
mod table;
mod topk;

pub use coordinator::Phase;
pub use coordinator::lemma_lifecycle_terminates;
pub use coordinator::phase_after;
pub use coordinator::phase_next;
pub use coordinator::phase_step;
pub use engine::WorkerPartial;
pub use engine::bucket_fold;
pub use engine::count_fold;
pub use engine::entity_fold;
pub use engine::lemma_bucket_fold_add;
pub use engine::lemma_count_fold_add;
pub use engine::lemma_entity_fold_add;
pub use engine::lemma_no_double_counting;
pub use engine::lemma_partition_invariance;
pub use engine::process_shard;
pub use engine::worker_lines;
pub use engine::workers_bucket_merged;
pub use engine::workers_count_sum;
pub use engine::workers_entity_merged;
pub use entity::EntityTable;
pub use entity::ecounts_total;
pub use entity::emerge_tables;
pub use entity::emerged_all;
pub use entity::emerged_map;
pub use entity::entity_sums;
pub use entity::etable_views;
pub use entity::lemma_emerged_all_label_observed;
pub use entity::lemma_emerged_all_permutation;
pub use entity::lemma_entity_merge_rotation;
pub use entity::lemma_sums_of_emerged;
pub use entity::lemma_sums_of_emerged_all;
pub use entity::sum_or_zero;
pub use lines::lemma_shard_lines_len;
pub use lines::lemma_shard_lines_split;
pub use lines::lines_upto;
pub use lines::next_line_start;
pub use lines::next_sep;
pub use lines::shard_lines;
pub use lines::whole_file_lines;
pub use metric::METRIC_BOUND;
pub use metric::metric_of;
pub use metric::parse_metric;
pub use partition::lemma_partition_coverage;
pub use partition::lemma_shards_tile;
pub use partition::shard_bounds;
pub use partition::shard_end_spec;
pub use partition::shard_start_spec;
pub use partition::shards_total_len;
pub use record::LineRecord;
pub use record::counted;
pub use record::decode_line;
pub use record::hour_key_of;
pub use record::json_fields_of;
pub use record::line_effect;
pub use record::trimmed_of;
pub use record::utf8_of;
pub use report::Report;
pub use report::finalize;
pub use report::lines_total;
pub use report::top_k_buckets;
pub use report::top_k_entities;
pub use report::topk_pairs_ok;
pub use report::topk_triples_ok;
pub use table::BucketTable;
pub use table::counts_total;
pub use table::lemma_merge_rotation;
pub use table::lemma_merged_all_extract;
pub use table::lemma_merged_all_permutation;
pub use table::lemma_merged_map_assoc;
pub use table::lemma_merged_map_comm;
pub use table::lemma_merged_map_empty;
pub use table::merge_tables;
pub use table::merged_all;
pub use table::merged_map;
pub use table::table_views;
pub use table::val_or_zero;
pub use topk::keeps;
pub use topk::top_k;
