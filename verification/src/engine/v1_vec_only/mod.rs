pub mod book;
pub mod matcher;
