pub mod book;
