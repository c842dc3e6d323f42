pub mod boyermoore;
pub mod memchr;
pub mod memcmp;
pub mod memmem;
