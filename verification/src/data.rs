pub mod vector;
pub mod d4;
pub mod e2;
pub mod outline;
pub mod rect;
pub mod u256;
pub mod us_order;
pub mod bit_poly;
pub mod tight_poly;
pub mod orbit;
pub mod flood;
pub mod parse;
pub mod text;
pub mod lex;
pub mod sparse_t2_rect;
pub mod sparse_t2_query;
pub mod t2_counter;
pub mod t2_masks;
pub mod cover1_queries;
pub mod tree_poly;
pub mod cover2_queries;
pub mod board_analyzer_symmetric;
pub mod asymmetry;
pub mod connection;
pub mod connections;
pub mod text_law;
pub mod board;
