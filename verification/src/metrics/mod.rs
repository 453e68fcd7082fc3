pub mod cpu;
pub mod disk;
pub mod gpu;
pub mod memory;
pub mod network;
