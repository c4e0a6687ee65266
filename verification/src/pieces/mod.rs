pub mod error;
pub mod have;
pub mod picker;
pub mod verify;
pub mod scheduler;
