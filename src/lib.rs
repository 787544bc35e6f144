pub mod script;
pub mod frontier;
pub mod diff;

pub use diff::Diff;
pub use script::Ses;
