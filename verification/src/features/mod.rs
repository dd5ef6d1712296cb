pub mod filter;
pub mod visuals;
