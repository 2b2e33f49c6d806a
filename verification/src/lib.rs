//! Core logic of a container benchmark orchestrator: percentile reduction,
//! version-aware result tables, version migration of build files, memory
//! sample collection, HTTP load-test bookkeeping and the round controller.

pub mod controller;
pub mod load;
pub mod memory;
pub mod meta;
pub mod migrator;
pub mod percentile;
pub mod result_catalog;
pub mod result_table;
pub mod sorting;
pub mod text;
pub mod validate;
pub mod version;
