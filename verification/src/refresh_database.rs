pub mod bulk_data;
pub mod image_proc;
pub mod scryfall;
