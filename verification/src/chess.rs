pub mod piece;
pub mod board_state;
pub mod moves;
pub mod board;
pub mod logic_base;
pub mod rules;
pub mod logic;
pub mod move_facts;
pub mod rays;
pub mod soundness;
