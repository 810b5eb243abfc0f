pub mod lemmas;
pub mod map;
pub mod node;
