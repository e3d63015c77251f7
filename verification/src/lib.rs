pub mod book;
pub mod bytes;
pub mod constants;
pub mod driver;
pub mod encoding;
pub mod engine;
pub mod errors;
pub mod hash;
pub mod input;
pub mod ledger;
pub mod levels;
pub mod limits;
pub mod market;
pub mod math;
pub mod merkle;
pub mod outputs;
pub mod priority;
pub mod queues;
pub mod resting;
pub mod state;
pub mod steps;
pub mod tree;
pub mod types;
pub mod verify;
pub mod wide;
