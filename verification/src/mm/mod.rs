pub mod address;
pub mod page_table;
pub mod user_ref;
