pub mod edit;
pub mod hex;
pub mod text;
