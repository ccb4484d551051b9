//! Work-log store: categories, sprints and daily entries, the sprint code
//! allocator, the active sprint selector and the Markdown report engine.

pub mod text;
pub mod model;
pub mod codes;
pub mod active;
pub mod store;
pub mod dates;
pub mod report;
pub mod legacy;
pub mod cli;
