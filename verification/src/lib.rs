//! A Hive game engine library: board geometry, pieces, moves, move
//! generation, the transposition table and position evaluation.

pub mod tile;
pub mod tally;
pub mod piece_type;
pub mod piece;
pub mod abstractions;
pub mod action;
pub mod board;

pub mod movegen;
pub mod cut;
pub mod uhp;
pub mod board_io;
pub mod eval;
pub mod tt;
pub mod engine;
pub mod eval_mlp;
pub mod mlp_net;
pub mod book;
pub mod features;
pub mod graph_nn;
pub mod csr;
pub mod perft;
pub mod symmetry;
pub mod zobrist;
pub mod slot_order;
pub mod color_swap;
pub mod search_rules;
pub mod feature_vector;
pub mod move_order;
pub mod search;
pub mod renumber;
pub mod eval_stream;
pub mod positions;
