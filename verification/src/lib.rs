pub mod bits;
pub mod components;
pub mod logic;
pub mod search;
pub mod laws;
