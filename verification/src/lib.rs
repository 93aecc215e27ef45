pub mod arith;
pub mod chunk;
pub mod chunk_map;
pub mod coord;
pub mod field;
pub mod game;
pub mod index_iter;
pub mod screen;
