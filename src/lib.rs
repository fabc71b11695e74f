//! A personal task list: task records, their one-line text form, and a
//! manager that tracks whether the in-memory collection needs writing back.

pub mod decimal;
pub mod manager;
pub mod present;
pub mod store;
pub mod task;
pub mod text;
pub mod util;
