//! Reading of the measurements that the tracker has saved.
pub mod basic_extractor;
