//! The panels of the screen as rows and cells of text, ready to be drawn.

pub mod header;
pub mod inconsistent_table;
pub mod layout;
pub mod osd_table;
pub mod pg_table;
pub mod popup;
pub mod recovery;
