//! The data plane of a timing portal: chip reads are stored once per key,
//! judged against a per-chip quiet window, credited to participants (with
//! placeholders for unknown chips), and uploaded in bounded chunks.

pub mod backup;
pub mod commands;
pub mod control;
pub mod cycle;
pub mod participant;
pub mod processor;
pub mod read;
pub mod reconnector;
pub mod records;
pub mod requests;
pub mod saver;
pub mod setting;
pub mod sound;
pub mod store;
pub mod text;
pub mod uploader;
