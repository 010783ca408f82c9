//! What the library promises as a whole: laws that relate several functions,
//! proved over the same spec functions that their contracts use. Laws that
//! speak of values rather than of structure are stated in exact arithmetic.

pub mod accuracy;
pub mod active_set;
pub mod admm;
pub mod affine;
pub mod agree;
pub mod cascade;
pub mod catalogue;
pub mod conic;
pub mod contact;
pub mod dynamics;
pub mod elimination;
pub mod factor;
pub mod fixed;
pub mod fixed_point;
pub mod freedom;
pub mod hierarchy;
pub mod ipm;
pub mod kernel;
pub mod kkt;
pub mod null_space;
pub mod progress;
pub mod prox;
pub mod push;
pub mod qp;
pub mod rebuild;
pub mod resolve;
pub mod rotation;
pub mod solve;
pub mod stack;
pub mod start;
pub mod task;
pub mod text;
pub mod tight;
pub mod triangular;
pub mod working_set;
