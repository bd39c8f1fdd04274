pub mod bit_ops;
pub mod bitboard;
pub mod core_structs;
pub mod geometry;
pub mod rays;
pub mod attacks;
pub mod magic;
pub mod board;
pub mod board_form;
pub mod move_list;
pub mod movegen;
pub mod movegen_laws;
pub mod perft;
pub mod fen;
pub mod see;
pub mod move_history;
pub mod search_rules;
pub mod options;
pub mod records;
pub mod uci_go;
pub mod search_tree;
pub mod move_orderer;
pub mod drawing;
pub mod network_inputs;
pub mod capture_generation;
pub mod king_safety;
pub mod legality;
pub mod position_laws;
pub mod completeness;
pub mod distinct_moves;
pub mod uci_position;
pub mod move_count;
