pub mod assembler;
pub mod crossover;
pub mod distance;
pub mod distributions;
pub mod error;
pub mod evolve;
pub mod lawful;
pub mod lgp;
pub mod mutation;
pub mod op;
pub mod opcode;
pub mod optimize;
mod rng;
pub mod species;
pub mod train;
pub mod vm;
