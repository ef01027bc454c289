//! Collection aggregators (`collect_set`, `collect_list`) and the probe logic of a
//! broadcast semi / anti / existence hash joiner.
use vstd::prelude::*;

pub mod frame;
pub mod acc_list;
pub mod acc_set;
pub mod column;
pub mod agg;
pub mod semi_join;
