pub mod column_width_allocator;
pub mod constants;
pub mod formatter;
pub mod table_reader;
pub mod unicode;
pub mod utils;
