//! Structural clustering of account names: each name is split into runs of
//! digits and of other characters, the collection is deduplicated and sorted by
//! skeleton, cut into shards, grouped shard by shard around leaders and merged.
//! The similarity test that decides membership is supplied by the caller.

pub mod decompose;
pub mod analyze;
pub mod order;
pub mod collection;
pub mod shard;
pub mod grouping;
pub mod output;
pub mod mode;
pub mod metrics;

pub use crate::analyze::{calc_edit_distance, CAccountNameSimAnalyse, CAccountNameSimAnalyseParamsWeightTable};
pub use crate::collection::CAccountNameAnaVec;
pub use crate::decompose::split_account_name_by_data_type;
pub use crate::mode::EfficiencyMode;
