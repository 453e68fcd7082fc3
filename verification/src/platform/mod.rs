pub mod gpu;
pub mod pdh;
pub mod wmi;
