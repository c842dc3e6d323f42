pub mod ring_vec;
