pub mod basket;
pub mod model;

pub use basket::{Basket, Meta, Price, Size};
