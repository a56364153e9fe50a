//! Word-mover's-distance groundwork: vocabularies with stable integer
//! positions, bag-of-words vectors, square cost grids and the decisions that
//! tie them together when two short documents are compared.

pub mod bow;
pub mod dictionary;
pub mod matrix;
pub mod order;
pub mod utils;
pub mod wordvector;
