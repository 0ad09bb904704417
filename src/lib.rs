pub mod identity;
pub mod laws;
pub mod monotone;
pub mod operation;
pub mod replica;
pub mod wire;
