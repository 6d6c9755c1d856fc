//! A memoized line-count aggregator over a commit graph.
//!
//! The library computes, for each commit reachable from a starting commit,
//! the total number of text lines in that commit's file-tree snapshot.
//! Per-object line counts are cached by content identity so that each
//! distinct object is measured at most once per run.

mod ancestry;
mod cache;
mod eval;
mod ids;
mod lines;
mod series;
mod table;
mod tree;

pub use ancestry::ancestors;
pub use ancestry::closed;
pub use ancestry::is_dag;
pub use ancestry::lex_le;
pub use ancestry::precedes;
pub use ancestry::rank_ok;
pub use ancestry::reach_set;
pub use ancestry::sort_time_descending;
pub use ancestry::sort_topological;
pub use ancestry::valid_ancestry;
pub use ancestry::ids_view;
pub use ancestry::is_chain;
pub use ancestry::lemma_reach_in_closed;
pub use ancestry::lemma_reaches_parent;
pub use ancestry::lemma_reaches_self;
pub use ancestry::parents_view;
pub use ancestry::reachable_commits;
pub use ancestry::reaches;
pub use ancestry::AncestryOrder;
pub use ancestry::CommitData;
pub use cache::blob_view;
pub use cache::lemma_fetched_at_most_once;
pub use cache::MetricCache;
pub use cache::ObjectAccessError;
pub use eval::all_cached;
pub use eval::eval_steps;
pub use eval::evaluate;
pub use eval::lemma_empty_tree_total;
pub use eval::lemma_eval_extends;
pub use eval::lemma_eval_idempotent;
pub use eval::lemma_eval_total;
pub use eval::lemma_eval_warm;
pub use eval::metric_num;
pub use eval::sum_cached;
pub use eval::EvalOutcome;
pub use ids::EntryKind;
pub use ids::Id;
pub use lines::count_lines_bytes;
pub use lines::line_count;
pub use lines::measure_content;
pub use lines::metric_of;
pub use series::collect;
pub use series::run_steps;
pub use series::seq_max;
pub use series::RunOutcome;
pub use series::Series;
pub use series::SeriesEntry;
pub use table::Table;
pub use tree::bfs;
pub use tree::entry_views;
pub use tree::tree_walk;
pub use tree::walk;
pub use tree::EntryView;
pub use tree::Node;
pub use tree::Tree;
pub use tree::TreeEntry;
pub use tree::TreeItem;
