//! What holds of the library as a whole, said of inputs and results alone.
//!
//! Each law here is about sequences, trees and bytes as they stand. It says what an operation is for
//! in other words than the operation is written in.
pub mod answers;
pub mod paths;
pub mod scopes;
pub mod sources;
pub mod uris;
