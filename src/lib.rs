pub mod closure;
pub mod history;
pub mod chains;
