pub mod fixed;
pub mod multi_book;
pub mod types;
