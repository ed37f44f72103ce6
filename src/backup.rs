use vstd::prelude::*;

use crate::records::{Reader, ResultsApi};

verus! {

/// The configuration kept in the backup file: the portal's settings, its
/// readers and its results services.
#[derive(Debug)]
pub struct Backup {
    pub name: String,
    pub sighting_period: u32,
    pub read_window: u8,
    pub chip_type: String,
    pub readers: Vec<Reader>,
    pub api: Vec<ResultsApi>,
}

} // verus!
