pub mod bitset;
pub mod morton;
pub mod grid;
pub mod multigrid;
pub mod spatial;
pub mod noise;
pub mod apic;
pub mod flip;
pub mod faces;
pub mod lanes;
