pub mod define;
pub mod error;
pub mod search;
pub mod simulate;
