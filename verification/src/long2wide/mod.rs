//! Converts long-form tables of metrics into one wide-form table.
pub mod csv_text;
pub mod error;
pub mod file_laws;
pub mod input_laws;
pub mod inputs;
pub mod laws;
pub mod rows;
pub mod table_laws;
pub mod wide;
