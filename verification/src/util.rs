pub mod data_generation;
pub mod vec_util;
