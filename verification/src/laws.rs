//! What holds of the library as a whole: each operation described by what its result
//! must be, over all inputs, beside how it is computed.

pub mod answers;
pub mod browsing;
pub mod declarations;
pub mod nodes;
pub mod ordering;
pub mod resolving;
pub mod runs;
pub mod scanning;
pub mod screens;
pub mod searching;
pub mod semantics;
pub mod showing;
pub mod texts;
pub mod types;
