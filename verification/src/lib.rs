//! Hyperparameter optimisation: studies, trials, samplers and the multi-objective
//! machinery behind them.

pub mod attr;
pub mod cmaes;
pub mod convert;
pub mod distribution;
pub mod error;
pub mod float;
pub mod front_end;
pub mod id_map;
pub mod importance;
pub mod key_map;
pub mod mirror;
pub mod mixture;
pub mod multi_objective;
pub mod nsgaii;
pub mod order;
pub mod sampler;
pub mod sobol;
pub mod storage;
pub mod study;
pub mod study_cache;
pub mod text;
pub mod tpe;
pub mod transform;
pub mod trial;
pub mod trial_queue;
