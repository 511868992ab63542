pub mod app;
pub mod deck_file_formats;
