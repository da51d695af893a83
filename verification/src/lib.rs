#![allow(non_snake_case)]

pub mod errors;
pub mod extension_bound;
pub mod field;
pub mod multilinear;
pub mod small_int;
pub mod small_value;
pub mod neutronnova_zk;
pub mod dot;
pub mod small_neutronnova_workspace;
pub mod outer_mles;
pub mod snark;
pub mod step_matvecs;
pub mod small_neutronnova;
pub mod small_c;
pub mod round_claims;
pub mod nifs_rounds;
pub mod laws;
pub mod sha256_chain;
